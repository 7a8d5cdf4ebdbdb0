//! JSON objects as far as a vault reads and writes them, and the printing
//! and reading of them, which `serde_json` does. The contracts of the three
//! functions that call it are not proved: they say what `serde_json` does.

use serde_json::Value;
use vstd::prelude::*;

use crate::primitives::opt_bytes;
use crate::text::ascending;
use crate::types::text_pairs;

verus! {

/// The value of one member of a JSON object, as far as a vault reads it.
#[derive(Clone, Debug, PartialEq, Eq)]
pub enum JsonMember {
    /// `true` or `false`.
    Flag(bool),
    /// A string.
    Text(String),
    /// An object whose members are all strings.
    Texts(Vec<(String, String)>),
    /// Any value, as JSON text.
    Raw(String),
}

/// The mathematical value of a [`JsonMember`].
pub enum MemberView {
    Flag(bool),
    Text(Seq<char>),
    Texts(Seq<(Seq<char>, Seq<char>)>),
    Raw(Seq<char>),
}

impl View for JsonMember {
    type V = MemberView;

    open spec fn view(&self) -> MemberView {
        match self {
            JsonMember::Flag(b) => MemberView::Flag(*b),
            JsonMember::Text(s) => MemberView::Text(s@),
            JsonMember::Texts(list) => MemberView::Texts(text_pairs(list@)),
            JsonMember::Raw(t) => MemberView::Raw(t@),
        }
    }
}

/// What a byte string is when read as JSON.
#[derive(Clone, Debug, PartialEq, Eq)]
pub enum JsonDocument {
    /// No JSON.
    Malformed,
    /// JSON, but no object.
    Other,
    /// An object, with its members in the order of their names.
    Object(Vec<(String, JsonMember)>),
}

/// The members of an object as mathematical values.
pub type Members = Seq<(Seq<char>, MemberView)>;

/// The mathematical value of a [`JsonDocument`].
pub enum DocumentView {
    Malformed,
    Other,
    Object(Members),
}

/// The views of a list of members, in order.
pub open spec fn members_view(list: Seq<(String, JsonMember)>) -> Members {
    list.map_values(|m: (String, JsonMember)| (m.0@, m.1@))
}

impl View for JsonDocument {
    type V = DocumentView;

    open spec fn view(&self) -> DocumentView {
        match self {
            JsonDocument::Malformed => DocumentView::Malformed,
            JsonDocument::Other => DocumentView::Other,
            JsonDocument::Object(members) => DocumentView::Object(members_view(members@)),
        }
    }
}

/// The string members that stand for a list of pairs of texts.
pub open spec fn as_text_members(list: Seq<(Seq<char>, Seq<char>)>) -> Members {
    list.map_values(|p: (Seq<char>, Seq<char>)| (p.0, MemberView::Text(p.1)))
}

/// The names of a list of members, in order.
pub open spec fn names_of(members: Members) -> Seq<Seq<char>> {
    members.map_values(|m: (Seq<char>, MemberView)| m.0)
}

/// The names of a list of pairs of texts, in order.
pub open spec fn first_texts(list: Seq<(Seq<char>, Seq<char>)>) -> Seq<Seq<char>> {
    list.map_values(|p: (Seq<char>, Seq<char>)| p.0)
}

/// Whether no member is given as JSON text.
pub open spec fn no_raw(members: Members) -> bool {
    forall|i: int| 0 <= i < members.len() ==> !((#[trigger] members[i]).1 is Raw)
}

/// Whether no member is given as JSON text or as an object.
pub open spec fn flat(members: Members) -> bool {
    forall|i: int|
        0 <= i < members.len() ==> (#[trigger] members[i]).1 is Flag || members[i].1 is Text
}

/// Whether `read` is what reading gives for a document that was printed
/// from `printed`: the same names; each flag and string as it was; and for
/// each object of strings, with its names ascending, the JSON text of an
/// object with those strings as its members.
pub open spec fn read_back(read: Members, printed: Members) -> bool {
    &&& read.len() == printed.len()
    &&& forall|i: int|
        0 <= i < printed.len() ==> {
            &&& (#[trigger] read[i]).0 == printed[i].0
            &&& (printed[i].1 is Flag || printed[i].1 is Text) ==> read[i].1 == printed[i].1
            &&& (printed[i].1 is Texts && ascending(first_texts(printed[i].1->Texts_0))) ==> (
            read[i].1 matches MemberView::Raw(text) && json_members_of(
                vstd::utf8::encode_utf8(text),
            ) == DocumentView::Object(as_text_members(printed[i].1->Texts_0)))
        }
}

/// What a byte string is when `serde_json` reads it: no JSON, JSON that is
/// no object, or an object with its members.
pub uninterp spec fn json_members_of(data: Seq<u8>) -> DocumentView;

/// The document that `serde_json::to_vec` prints for an object with these
/// members, on one line; none where the JSON text of a member is no JSON.
pub uninterp spec fn compact_json_of(members: Members) -> Option<Seq<u8>>;

/// The document that `serde_json::to_vec_pretty` prints for an object with
/// these members, indented; none where the JSON text of a member is no
/// JSON.
pub uninterp spec fn pretty_json_of(members: Members) -> Option<Seq<u8>>;

/// The text that `serde_json` prints, on one line, for the JSON value that
/// a text reads as; none where the text is no JSON.
pub uninterp spec fn json_printed(text: Seq<char>) -> Option<Seq<char>>;

/// `serde_json::from_str` into a `Value` and `Value::to_string`: the text
/// that is printed for the value that a text reads as, which depends on
/// the text alone; `None` where the text is no JSON.
#[verifier::external_body]
pub(crate) fn json_print(text: &str) -> (r: Option<String>)
    ensures
        crate::types::opt_text(r) == json_printed(text@),
{
    Some(serde_json::from_str::<Value>(text).ok()?.to_string())
}

/// `serde_json::from_slice` into a `Value`: whether the bytes are JSON and
/// an object, and then its members, in the order of their names. A flag
/// and a string are handed out as they are, any other value as the JSON
/// text that `Value::to_string` prints for it.
#[verifier::external_body]
pub(crate) fn json_members(data: &[u8]) -> (r: JsonDocument)
    ensures
        r@ == json_members_of(data@),
{
    match serde_json::from_slice::<Value>(data) {
        Err(_) => JsonDocument::Malformed,
        Ok(Value::Object(map)) => JsonDocument::Object(
            map.into_iter().map(|(name, value)| (name, match value {
                Value::Bool(flag) => JsonMember::Flag(flag),
                Value::String(text) => JsonMember::Text(text),
                other => JsonMember::Raw(other.to_string()),
            })).collect(),
        ),
        Ok(_) => JsonDocument::Other,
    }
}

/// `serde_json::to_vec` of the object with these members. There is a
/// document where no member is given as JSON text, and it then reads as an
/// object again; it is valid UTF-8 and depends on the members alone. Where
/// the names are ascending and the document reads as an object again, the
/// members read back. Of a member given as JSON text nothing is said: the
/// text may be nested as deep as the reader goes, and stands one level
/// deeper in the document; and a fraction in it is read with less care
/// than it is printed with, so that it may come back as another.
#[verifier::external_body]
pub(crate) fn json_compact(members: &Vec<(String, JsonMember)>) -> (r: Option<Vec<u8>>)
    ensures
        opt_bytes(r) == compact_json_of(members_view(members@)),
        r matches Some(document) ==> (no_raw(members_view(members@)) ==> json_members_of(
            document@,
        ) is Object),
        no_raw(members_view(members@)) ==> r is Some,
        r matches Some(document) ==> vstd::utf8::valid_utf8(document@),
        r matches Some(document) ==> (flat(members_view(members@)) && ascending(
            names_of(members_view(members@)),
        ) ==> json_members_of(document@) == DocumentView::Object(members_view(members@))),
        r matches Some(document) ==> (ascending(names_of(members_view(members@))) ==> (
        json_members_of(document@) matches DocumentView::Object(read) ==> read_back(
            read,
            members_view(members@),
        ))),
{
    let mut map = serde_json::Map::new();
    for (name, member) in members {
        map.insert(name.clone(), match member {
            JsonMember::Flag(flag) => Value::Bool(*flag),
            JsonMember::Text(text) => Value::String(text.clone()),
            JsonMember::Texts(list) => Value::Object(
                list.iter().map(|(k, v)| (k.clone(), Value::String(v.clone()))).collect(),
            ),
            JsonMember::Raw(text) => serde_json::from_str(text).ok()?,
        });
    }
    serde_json::to_vec(&Value::Object(map)).ok()
}

/// `serde_json::to_vec_pretty` of the object with these members, with the
/// same claims as for the document on one line.
#[verifier::external_body]
pub(crate) fn json_pretty(members: &Vec<(String, JsonMember)>) -> (r: Option<Vec<u8>>)
    ensures
        opt_bytes(r) == pretty_json_of(members_view(members@)),
        r matches Some(document) ==> (no_raw(members_view(members@)) ==> json_members_of(
            document@,
        ) is Object),
        no_raw(members_view(members@)) ==> r is Some,
        r matches Some(document) ==> vstd::utf8::valid_utf8(document@),
        r matches Some(document) ==> (flat(members_view(members@)) && ascending(
            names_of(members_view(members@)),
        ) ==> json_members_of(document@) == DocumentView::Object(members_view(members@))),
{
    let mut map = serde_json::Map::new();
    for (name, member) in members {
        map.insert(name.clone(), match member {
            JsonMember::Flag(flag) => Value::Bool(*flag),
            JsonMember::Text(text) => Value::String(text.clone()),
            JsonMember::Texts(list) => Value::Object(
                list.iter().map(|(k, v)| (k.clone(), Value::String(v.clone()))).collect(),
            ),
            JsonMember::Raw(text) => serde_json::from_str(text).ok()?,
        });
    }
    serde_json::to_vec_pretty(&Value::Object(map)).ok()
}

/// The member with this name, if there is one: the first where there are
/// several.
pub open spec fn member_named(members: Members, name: Seq<char>) -> Option<MemberView>
    decreases members.len(),
{
    if members.len() == 0 {
        None
    } else if members[0].0 == name {
        Some(members[0].1)
    } else {
        member_named(members.drop_first(), name)
    }
}

/// The view of an optional member.
pub open spec fn opt_member(member: Option<&JsonMember>) -> Option<MemberView> {
    match member {
        Some(m) => Some(m@),
        None => None,
    }
}

/// The member with this name, if there is one.
pub fn find_member<'a>(members: &'a Vec<(String, JsonMember)>, name: &str) -> (r: Option<
    &'a JsonMember,
>)
    ensures
        opt_member(r) == member_named(members_view(members@), name@),
{
    let mut i: usize = 0;
    assert(members_view(members@).skip(0) =~= members_view(members@));
    while i < members.len()
        invariant
            i <= members.len(),
            member_named(members_view(members@), name@) == member_named(
                members_view(members@).skip(i as int),
                name@,
            ),
        decreases members.len() - i,
    {
        proof {
            let rest = members_view(members@).skip(i as int);
            assert(rest[0] == (members@[i as int].0@, members@[i as int].1@));
            assert(rest.drop_first() =~= members_view(members@).skip(i + 1));
        }
        if crate::text::chars_equal(members[i].0.as_str(), name) {
            return Some(&members[i].1);
        }
        i += 1;
    }
    None
}

} // verus!
