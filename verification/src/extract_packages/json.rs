//! JSON objects whose members keep their order, held in [`serde_json::Map`].

use vstd::prelude::*;

use crate::text::join;

verus! {

/// The members of a JSON object in order, each as its name and the compact JSON text of its value.
pub type Members = Seq<(Seq<char>, Seq<char>)>;

/// A JSON object.
pub type JsonObject = serde_json::Map<String, serde_json::Value>;

/// `serde_json::Map`: opaque, but for the members that [`object_members`] names.
#[verifier::external_type_specification]
#[verifier::external_body]
#[verifier::reject_recursive_types(K)]
#[verifier::reject_recursive_types(V)]
pub struct ExJsonMap<K, V>(serde_json::Map<K, V>);

/// `serde_json::Value`: opaque.
#[verifier::external_type_specification]
#[verifier::external_body]
pub struct ExJsonValue(serde_json::Value);

/// The members that an object holds, in order.
pub uninterp spec fn object_members(object: serde_json::Map<String, serde_json::Value>) -> Seq<
    (Seq<char>, Seq<char>),
>;

/// The members of the object that a JSON document holds: `None` where the text is no JSON document,
/// or one that holds something else.
pub uninterp spec fn json_members(text: Seq<char>) -> Option<Seq<(Seq<char>, Seq<char>)>>;

/// The indented JSON text that `serde_json` writes for an object with the given members.
pub uninterp spec fn json_pretty(members: Seq<(Seq<char>, Seq<char>)>) -> Seq<char>;

/// A hexadecimal digit, in lower case.
pub open spec fn hex_digit(n: nat) -> char {
    if n < 10 {
        (('0' as u32) + n) as char
    } else {
        (('a' as u32) + n - 10) as char
    }
}

/// A character as it stands in a JSON string: quotes, backslashes and control characters are escaped.
pub open spec fn json_char(c: char) -> Seq<char> {
    if c == '"' || c == '\\' {
        seq!['\\', c]
    } else if c == '\u{8}' {
        seq!['\\', 'b']
    } else if c == '\t' {
        seq!['\\', 't']
    } else if c == '\n' {
        seq!['\\', 'n']
    } else if c == '\u{c}' {
        seq!['\\', 'f']
    } else if c == '\r' {
        seq!['\\', 'r']
    } else if c <= '\u{1f}' {
        seq!['\\', 'u', '0', '0', hex_digit((c as u32 / 16) as nat), hex_digit((c as u32 % 16) as nat)]
    } else {
        seq![c]
    }
}

/// The characters of a JSON string.
pub open spec fn json_chars(text: Seq<char>) -> Seq<char>
    decreases text.len(),
{
    if text.len() == 0 {
        text
    } else {
        json_chars(text.drop_last()) + json_char(text.last())
    }
}

/// The JSON text of a string, in quotes.
pub open spec fn json_string(text: Seq<char>) -> Seq<char> {
    seq!['"'] + json_chars(text) + seq!['"']
}

/// The compact JSON text of an object with the given members.
pub open spec fn json_object(members: Members) -> Seq<char> {
    "{"@ + join(
        Seq::new(members.len(), |i: int| json_string(members[i].0) + ":"@ + members[i].1),
        ","@,
    ) + "}"@
}

/// The compact JSON text of an array of strings.
pub open spec fn json_array(items: Seq<Seq<char>>) -> Seq<char> {
    "["@ + join(Seq::new(items.len(), |i: int| json_string(items[i])), ","@) + "]"@
}

/// The names of the members, in order.
pub open spec fn member_names(members: Members) -> Seq<Seq<char>> {
    Seq::new(members.len(), |i: int| members[i].0)
}

/// Whether a member has the given name.
pub open spec fn has_member(members: Members, name: Seq<char>) -> bool {
    member_names(members).contains(name)
}

/// The members with the one called `name` set to `value`: in its place where there is one, as the
/// last where there is none.
pub open spec fn with_member(members: Members, name: Seq<char>, value: Seq<char>) -> Members {
    if has_member(members, name) {
        Seq::new(
            members.len(),
            |i: int|
                if members[i].0 == name {
                    (name, value)
                } else {
                    members[i]
                },
        )
    } else {
        members.push((name, value))
    }
}

/// A new member comes last.
pub proof fn new_member_comes_last(members: Members, name: Seq<char>, value: Seq<char>)
    requires
        forall|i: int| 0 <= i < members.len() ==> (#[trigger] members[i]).0 != name,
    ensures
        with_member(members, name, value) == members.push((name, value)),
{
    if has_member(members, name) {
        let i = choose|i: int| 0 <= i < member_names(members).len() && member_names(members)[i] == name;
        assert(members[i].0 == name);
    }
}

/// Calls `serde_json::Map::new`: an object without members.
#[verifier::external_body]
pub(crate) fn empty_object() -> (object: JsonObject)
    ensures
        object_members(object) == Seq::<(Seq<char>, Seq<char>)>::empty(),
{
    serde_json::Map::new()
}

/// Calls `serde_json::from_str` for a `serde_json::Value` and keeps an object: the members are a
/// function of the text, and there is no object exactly where the text does not hold one.
#[verifier::external_body]
pub(crate) fn parse_object(text: &str) -> (object: Option<JsonObject>)
    ensures
        object is Some == json_members(text@) is Some,
        object matches Some(o) ==> object_members(o) == json_members(text@)->0,
{
    match serde_json::from_str::<serde_json::Value>(text) {
        Ok(serde_json::Value::Object(object)) => Some(object),
        _ => None,
    }
}

/// Calls `serde_json::Map::contains_key`: whether a member has the given name.
#[verifier::external_body]
pub(crate) fn contains_member(object: &JsonObject, name: &str) -> (r: bool)
    ensures
        r == has_member(object_members(*object), name@),
{
    object.contains_key(name)
}

/// Calls `serde_json::Map::insert` with a `serde_json::Value::String`. The crate's `preserve_order`
/// feature keeps a member that is already there in its place, and puts a new one last. The value's JSON
/// text is the string in quotes, with quotes, backslashes and control characters escaped, as
/// `serde_json` writes it.
#[verifier::external_body]
pub(crate) fn insert_text(object: &mut JsonObject, name: &str, value: &str)
    ensures
        object_members(*final(object)) == with_member(object_members(*old(object)), name@, json_string(value@)),
{
    object.insert(name.to_owned(), serde_json::Value::String(value.to_owned()));
}

/// Calls `serde_json::Map::insert` with a `serde_json::Value::Array` of strings. The order of the
/// members is as for [`insert_text`].
#[verifier::external_body]
pub(crate) fn insert_texts(object: &mut JsonObject, name: &str, values: &Vec<String>)
    ensures
        object_members(*final(object)) == with_member(
            object_members(*old(object)),
            name@,
            json_array(Seq::new(values@.len(), |i: int| values@[i]@)),
        ),
{
    object.insert(name.to_owned(), serde_json::Value::from(values.clone()));
}

/// Calls `serde_json::Map::insert` with a `serde_json::Value::Object`. The order of the members is
/// as for [`insert_text`].
#[verifier::external_body]
pub(crate) fn insert_object(object: &mut JsonObject, name: &str, value: JsonObject)
    ensures
        object_members(*final(object)) == with_member(
            object_members(*old(object)),
            name@,
            json_object(object_members(value)),
        ),
{
    object.insert(name.to_owned(), serde_json::Value::Object(value));
}

/// Calls `serde_json::to_string_pretty`, which succeeds on every object: the text is a function of
/// the object's members.
#[verifier::external_body]
pub(crate) fn pretty(object: &JsonObject) -> (text: String)
    ensures
        text@ == json_pretty(object_members(*object)),
{
    serde_json::to_string_pretty(object).expect("an object with text keys always serialises")
}

} // verus!
