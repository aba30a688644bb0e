//! avm's `~/.avm.json` as far as the Android provider reads it: the pinned
//! Java version under `tools.java`. The text is parsed by `serde_json`.

use vstd::prelude::*;
use crate::text::{chars_eq, chars_of};

verus! {

/// A JSON document as the provider reads it: objects (their members, each
/// key once, as the parser hands them over) and strings; every other value
/// is opaque.
#[derive(Debug)]
pub enum Json {
    Object(Vec<(String, Json)>),
    Text(String),
    Other,
}

/// The value of the member `key` (`serde_json::Value::get` with a string).
pub open spec fn lookup(members: Seq<(String, Json)>, key: Seq<char>) -> Option<Json>
    decreases members.len(),
{
    if members.len() == 0 {
        None
    } else if members[0].0@ == key {
        Some(members[0].1)
    } else {
        lookup(members.drop_first(), key)
    }
}

/// `value.get(key)`: a member of an object; `None` for anything else.
pub open spec fn member(value: Json, key: Seq<char>) -> Option<Json> {
    match value {
        Json::Object(members) => lookup(members@, key),
        _ => None,
    }
}

/// `value.as_str()`.
pub open spec fn text_of(value: Json) -> Option<Seq<char>> {
    match value {
        Json::Text(s) => Some(s@),
        _ => None,
    }
}

/// The pinned Java version: the string at `tools.java`.
pub open spec fn java_pin(doc: Json) -> Option<Seq<char>> {
    match member(doc, "tools"@) {
        Some(tools) => match member(tools, "java"@) {
            Some(java) => text_of(java),
            None => None,
        },
        None => None,
    }
}

/// `value.get(key)`.
pub fn json_get<'a>(value: &'a Json, key: &str) -> (r: Option<&'a Json>)
    ensures
        match r {
            Some(v) => member(*value, key@) == Some(*v),
            None => member(*value, key@) is None,
        },
{
    match value {
        Json::Object(members) => {
            let kc = chars_of(key);
            let mut i: usize = 0;
            assert(members@.skip(0) =~= members@);
            while i < members.len()
                invariant
                    i <= members@.len(),
                    kc@ == key@,
                    member(*value, key@) == lookup(members@, key@),
                    lookup(members@, key@) == lookup(members@.skip(i as int), key@),
                decreases members.len() - i,
            {
                assert(members@.skip(i as int).drop_first() =~= members@.skip(i + 1));
                let name = chars_of(members[i].0.as_str());
                if chars_eq(name.as_slice(), kc.as_slice()) {
                    assert(members@.skip(i as int)[0] == members@[i as int]);
                    assert(members@[i as int].0@ == key@);
                    assert(lookup(members@.skip(i as int), key@) == Some(members@[i as int].1));
                    return Some(&members[i].1);
                }
                i += 1;
            }
            None
        },
        _ => None,
    }
}

/// The Java version pinned in avm's configuration document, if any.
pub fn pinned_java_version(doc: &Json) -> (r: Option<String>)
    ensures
        match r {
            Some(s) => java_pin(*doc) == Some(s@),
            None => java_pin(*doc) is None,
        },
{
    let tools = match json_get(doc, "tools") {
        Some(t) => t,
        None => return None,
    };
    let java = match json_get(tools, "java") {
        Some(j) => j,
        None => return None,
    };
    match java {
        Json::Text(s) => Some(s.clone()),
        _ => None,
    }
}

/// `serde_json::Value`, carried through the parse below.
#[verifier::external_type_specification]
#[verifier::external_body]
pub struct ExJsonValue(serde_json::Value);

/// What `serde_json` makes of a JSON text, as the provider reads it (`None`
/// where the text is not JSON). A JSON grammar takes pages; this names it.
pub uninterp spec fn parsed_json(raw: Seq<char>) -> Option<Json>;

/// `serde_json::from_str::<serde_json::Value>`, with the value put into the
/// provider's model: each object with its members as `serde_json::Map`
/// iterates them, each string as text, every other value opaque. The claim
/// is only that the result depends on the text alone.
#[verifier::external_body]
fn parse_json(raw: &str) -> (r: Option<Json>)
    ensures
        r == parsed_json(raw@),
{
    serde_json::from_str::<serde_json::Value>(raw).ok().map(json_of_value)
}

/// The provider's model of a `serde_json::Value`, variant for variant.
#[verifier::external_body]
fn json_of_value(value: serde_json::Value) -> Json {
    match value {
        serde_json::Value::Object(map) => Json::Object(map.into_iter().map(|(k, v)| (k, json_of_value(v))).collect()),
        serde_json::Value::String(s) => Json::Text(s),
        _ => Json::Other,
    }
}

/// The Java version pinned in the text of avm's configuration file: `None`
/// where the text is not JSON or pins none.
pub fn pinned_java_in(raw: &str) -> (r: Option<String>)
    ensures
        match parsed_json(raw@) {
            Some(doc) => match java_pin(doc) {
                Some(v) => r matches Some(s) && s@ == v,
                None => r is None,
            },
            None => r is None,
        },
{
    match parse_json(raw) {
        Some(doc) => pinned_java_version(&doc),
        None => None,
    }
}

} // verus!
