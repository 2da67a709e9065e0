//! One level of a JSON document at a time.
//!
//! Reading JSON is the work of `serde_json`. What the library looks at is
//! whether a document is a piece of text or an object, so that is what it is
//! handed; a member's value stays JSON text until it is looked at in turn.
use crate::app_config::distinct_names;
use crate::text::shown;
use vstd::prelude::*;

verus! {

/// A JSON document, read one level deep.
#[derive(Debug)]
pub enum Json {
    /// A string.
    Text(String),
    /// An object: each member's name, and its value as JSON text.
    Object(Vec<(String, String)>),
    /// A number, a truth value, an array or null.
    Other,
}

/// A JSON document, by value.
pub enum JsonView {
    Text(Seq<char>),
    Object(Seq<(Seq<char>, Seq<char>)>),
    Other,
}

/// Pairs of texts, by value.
pub open spec fn pairs(entries: Seq<(String, String)>) -> Seq<(Seq<char>, Seq<char>)> {
    entries.map_values(|e: (String, String)| (e.0@, e.1@))
}

impl View for Json {
    type V = JsonView;

    open spec fn view(&self) -> JsonView {
        match self {
            Json::Text(text) => JsonView::Text(text@),
            Json::Object(members) => JsonView::Object(pairs(members@)),
            Json::Other => JsonView::Other,
        }
    }
}

/// A document as it stands, where there is one.
pub open spec fn document(json: Option<Json>) -> Option<JsonView> {
    match json {
        Some(j) => Some(j@),
        None => None,
    }
}

/// The value of the member `name`, where `doc` is an object that has it.
#[verifier::opaque]
pub open spec fn member_of(doc: Option<JsonView>, name: Seq<char>) -> Option<Seq<char>> {
    match doc {
        Some(JsonView::Object(members)) => if exists|i: int|
            0 <= i < members.len() && (#[trigger] members[i]).0 == name {
            let i = choose|i: int|
                0 <= i < members.len() && (#[trigger] members[i]).0 == name && forall|j: int|
                    0 <= j < i ==> (#[trigger] members[j]).0 != name;
            Some(members[i].1)
        } else {
            None
        },
        _ => None,
    }
}

/// A member's value, to be written.
#[derive(Debug)]
pub enum Member {
    Null,
    Number(u64),
    Text(String),
}

/// A member's value, by value.
pub enum MemberView {
    Null,
    Number(nat),
    Text(Seq<char>),
}

impl View for Member {
    type V = MemberView;

    open spec fn view(&self) -> MemberView {
        match self {
            Member::Null => MemberView::Null,
            Member::Number(n) => MemberView::Number(*n as nat),
            Member::Text(text) => MemberView::Text(text@),
        }
    }
}

/// Members, by value.
pub open spec fn member_views(members: Seq<(String, Member)>) -> Seq<(Seq<char>, MemberView)> {
    members.map_values(|m: (String, Member)| (m.0@, m.1@))
}

/// The JSON text `value` stands for `m`.
pub open spec fn stands_for(value: Option<Seq<char>>, m: MemberView) -> bool {
    match m {
        MemberView::Null => value == Some("null"@),
        MemberView::Number(n) => value == Some(shown(n)),
        MemberView::Text(text) => value is Some && json_document(value->0) == Some(
            JsonView::Text(text),
        ),
    }
}

/// What `serde_json` writes an object of these members as.
pub uninterp spec fn object_text(members: Seq<(Seq<char>, MemberView)>) -> Seq<char>;

/// `serde_json::Value::to_string` on an object made of `members`. Read again,
/// the text is an object in which each member stands for what was put in: null
/// is written as `null`, a number in decimal digits, and a text as a JSON
/// string that reads as that text.
#[verifier::external_body]
pub(crate) fn write_object(members: Vec<(String, Member)>) -> (r: String)
    requires
        distinct_names(members@),
    ensures
        r@ == object_text(member_views(members@)),
        forall|i: int|
            0 <= i < members@.len() ==> stands_for(
                member_of(json_document(r@), (#[trigger] members@[i]).0@),
                members@[i].1@,
            ),
{
    let mut map = serde_json::Map::new();
    for (name, member) in members {
        let value = match member {
            Member::Null => serde_json::Value::Null,
            Member::Number(n) => serde_json::Value::from(n),
            Member::Text(text) => serde_json::Value::String(text),
        };
        map.insert(name, value);
    }
    serde_json::Value::Object(map).to_string()
}

/// What `serde_json` reads `text` as; `None` where it is not JSON.
pub uninterp spec fn json_document(text: Seq<char>) -> Option<JsonView>;

/// `serde_json::from_str`, read into a `serde_json::Value` whose variants are
/// told apart. The value of a member is written back as text by the value's
/// own `to_string`. An object is a map, so no member's name comes twice.
#[verifier::external_body]
pub(crate) fn read_json(text: &str) -> (r: Option<Json>)
    ensures
        document(r) == json_document(text@),
        r matches Some(Json::Object(members)) ==> distinct_names(members@),
{
    match serde_json::from_str::<serde_json::Value>(text) {
        Ok(serde_json::Value::String(s)) => Some(Json::Text(s)),
        Ok(serde_json::Value::Object(map)) => {
            Some(Json::Object(map.into_iter().map(|(k, v)| (k, v.to_string())).collect()))
        },
        Ok(_) => Some(Json::Other),
        Err(_) => None,
    }
}

} // verus!
