//! The `serde_json` calls that the crate makes, with what is believed of them.
//!
//! A JSON value is spoken of by its compact text, the one that `Value::to_string`
//! writes.

use vstd::prelude::*;

verus! {

/// The members of a JSON object: under each key, the compact text of its value.
pub type Members = Map<Seq<char>, Seq<char>>;

#[verifier::external_type_specification]
#[verifier::external_body]
pub struct ExValue(serde_json::Value);

#[verifier::external_type_specification]
#[verifier::external_body]
pub struct ExError(serde_json::Error);

#[verifier::external_type_specification]
#[verifier::external_body]
#[verifier::reject_recursive_types(K)]
#[verifier::reject_recursive_types(V)]
pub struct ExObject<K, V>(serde_json::Map<K, V>);

/// The compact text of a JSON value.
pub uninterp spec fn json_text(value: serde_json::Value) -> Seq<char>;

/// The members of a JSON object.
pub uninterp spec fn json_members(object: serde_json::Map<String, serde_json::Value>) -> Members;

/// The compact text of the value that `serde_json::from_str` reads from a text,
/// or `None` where it refuses the text.
pub uninterp spec fn json_compact(text: Seq<char>) -> Option<Seq<char>>;

/// The compact text of a JSON string that holds the given characters.
pub uninterp spec fn json_string(text: Seq<char>) -> Seq<char>;

/// The compact text of a JSON object with the given members.
pub uninterp spec fn json_object(members: Members) -> Seq<char>;

/// The members of an object that has none.
pub open spec fn no_members() -> Members {
    Map::empty()
}

/// Whether a text is the compact text of a JSON string, or of a value that is read
/// from some text.
pub open spec fn is_compact(text: Seq<char>) -> bool {
    ||| exists|t: Seq<char>| #[trigger] json_string(t) == text
    ||| exists|t: Seq<char>| #[trigger] json_compact(t) == Some(text)
}

/// Whether these are finitely many members, each with the compact text of a value.
pub open spec fn are_members(members: Members) -> bool {
    &&& members.dom().finite()
    &&& forall|key: Seq<char>| #[trigger] members.contains_key(key) ==> is_compact(members[key])
}

/// Some texts with a comma between each and the next.
pub open spec fn comma_separated(items: Seq<Seq<char>>) -> Seq<char>
    decreases items.len(),
{
    if items.len() == 0 {
        Seq::empty()
    } else if items.len() == 1 {
        items[0]
    } else {
        comma_separated(items.drop_last()) + ","@ + items.last()
    }
}

/// The compact text of a JSON array, by those of its items.
pub open spec fn json_array(items: Seq<Seq<char>>) -> Seq<char> {
    "["@ + comma_separated(items) + "]"@
}

/// The compact texts of the JSON strings that hold the given characters.
pub open spec fn json_strings(strings: Seq<String>) -> Seq<Seq<char>> {
    strings.map_values(|s: String| json_string(s@))
}

/// `serde_json::from_str` into a `Value`: refuses the text, or gives the value
/// that it writes.
#[verifier::external_body]
pub(crate) fn parse_value(text: &str) -> (value: Result<serde_json::Value, serde_json::Error>)
    ensures
        match value {
            Ok(v) => json_compact(text@) == Some(json_text(v)),
            Err(_) => json_compact(text@) is None,
        },
{
    serde_json::from_str(text)
}

/// `serde_json::Value::from` a string slice: the JSON string of those characters.
/// Quotes, backslashes and control characters are escaped, each in a way of its own,
/// and all else stands as it is, so no other characters have that compact text.
#[verifier::external_body]
pub(crate) fn string_value(text: &str) -> (value: serde_json::Value)
    ensures
        json_text(value) == json_string(text@),
        forall|other: Seq<char>| #[trigger]
            json_string(other) == json_text(value) ==> other == text@,
{
    serde_json::Value::from(text)
}

/// `serde_json::Value::from` a vector of strings: the JSON array of those strings,
/// in their order. Its compact text has the items' texts in square brackets, with
/// commas between them.
#[verifier::external_body]
pub(crate) fn strings_value(strings: Vec<String>) -> (value: serde_json::Value)
    ensures
        json_text(value) == json_array(json_strings(strings@)),
{
    serde_json::Value::from(strings)
}

/// `serde_json::Map::new`: an object without members.
#[verifier::external_body]
pub(crate) fn new_object() -> (object: serde_json::Map<String, serde_json::Value>)
    ensures
        json_members(object) == no_members(),
{
    serde_json::Map::new()
}

/// `serde_json::Map::insert`: the key holds the value afterwards, and no other
/// member changes.
#[verifier::external_body]
pub(crate) fn insert_member(
    object: &mut serde_json::Map<String, serde_json::Value>,
    key: &str,
    value: serde_json::Value,
)
    ensures
        json_members(*final(object)) == json_members(*old(object)).insert(key@, json_text(value)),
{
    object.insert(key.to_string(), value);
}

/// `to_string` of a `serde_json::Value::Object`: the object's compact text. With
/// the crate's default features an object keeps its members sorted by key, so the
/// text is fixed by the members alone. JSON text is unambiguous, so no other members
/// have that text.
#[verifier::external_body]
pub(crate) fn object_text(object: serde_json::Map<String, serde_json::Value>) -> (text: String)
    ensures
        text@ == json_object(json_members(object)),
        forall|other: Members|
            are_members(other) && #[trigger] json_object(other) == text@ ==> other
                == json_members(object),
{
    serde_json::Value::Object(object).to_string()
}

/// A JSON array has its items in their order, in square brackets and with commas between
/// them; one of strings has an item for each string.
pub proof fn law_array_holds_its_items(items: Seq<Seq<char>>, item: Seq<char>)
    ensures
        json_array(Seq::empty()) == "["@ + "]"@,
        json_array(seq![item]) == "["@ + item + "]"@,
        items.len() > 0 ==> json_array(items.push(item)) == json_array(items).drop_last() + ","@
            + item + "]"@,
        no_members().dom() == Set::<Seq<char>>::empty(),
{
    reveal_strlit("]");
    assert(json_array(Seq::empty()) =~= "["@ + "]"@);
    assert(json_array(seq![item]) =~= "["@ + item + "]"@);
    assert(no_members().dom() =~= Set::empty());
    if items.len() > 0 {
        assert(items.push(item).drop_last() =~= items);
        assert(json_array(items).drop_last() =~= "["@ + comma_separated(items));
        assert(json_array(items.push(item)) =~= json_array(items).drop_last() + ","@ + item + "]"@);
    }
}

/// Each string has its own item, in their order.
pub proof fn law_array_of_strings(strings: Seq<String>)
    ensures
        json_strings(strings).len() == strings.len(),
        forall|i: int|
            0 <= i < strings.len() ==> #[trigger] json_strings(strings)[i] == json_string(
                strings[i]@,
            ),
{
}

} // verus!
