//! JSON documents, as far as events are read out of them.
use vstd::prelude::*;

verus! {

/// A JSON value, as `serde_json` holds it.
#[verifier::external_type_specification]
#[verifier::external_body]
pub struct ExJsonValue(serde_json::Value);

/// What stands at one place of a document.
pub enum JsonNode {
    /// A string.
    Text(Seq<char>),
    /// An integer from 0 to `u64::MAX`.
    Count(u64),
    /// Anything else.
    Other,
}

/// The places of a document, by the JSON Pointers that lead to them; the empty pointer leads to
/// the document itself.
pub type JsonDoc = Map<Seq<char>, JsonNode>;

/// The document that a text holds, where it is JSON.
pub uninterp spec fn json_document(text: Seq<char>) -> Option<JsonDoc>;

/// The places of a value that `serde_json` holds.
pub uninterp spec fn document_of(value: serde_json::Value) -> JsonDoc;

/// The part of a document that a pointer leads to, as a document of its own.
pub open spec fn part_of(doc: JsonDoc, pointer: Seq<char>) -> JsonDoc {
    Map::new(
        |rest: Seq<char>| (rest.len() == 0 || rest[0] == '/') && doc.contains_key(pointer + rest),
        |rest: Seq<char>| doc[pointer + rest],
    )
}

/// `serde_json::from_str`, into a `Value`: the value of a text that is JSON, and none of another.
/// Which texts are JSON, and what they hold, is named by `json_document`.
#[verifier::external_body]
pub(crate) fn parse_json(text: &str) -> (r: Option<serde_json::Value>)
    ensures
        match r {
            Some(value) => json_document(text@) == Some(document_of(value)),
            None => json_document(text@) is None,
        },
{
    serde_json::from_str(text).ok()
}

/// `serde_json::Value::pointer`: the value that a JSON Pointer leads to, if it leads anywhere.
/// A pointer that starts there goes on where this one ends.
#[verifier::external_body]
pub(crate) fn json_at<'a>(value: &'a serde_json::Value, pointer: &str) -> (r: Option<
    &'a serde_json::Value,
>)
    ensures
        match r {
            Some(part) => document_of(*value).contains_key(pointer@) && document_of(*part)
                == part_of(document_of(*value), pointer@),
            None => !document_of(*value).contains_key(pointer@),
        },
{
    value.pointer(pointer)
}

/// The text at a place of a document, if there is a text.
pub open spec fn text_at(doc: JsonDoc, pointer: Seq<char>) -> Option<Seq<char>> {
    if doc.contains_key(pointer) {
        match doc[pointer] {
            JsonNode::Text(s) => Some(s),
            _ => None,
        }
    } else {
        None
    }
}

/// The count at a place of a document, if there is a count.
pub open spec fn count_at(doc: JsonDoc, pointer: Seq<char>) -> Option<u64> {
    if doc.contains_key(pointer) {
        match doc[pointer] {
            JsonNode::Count(n) => Some(n),
            _ => None,
        }
    } else {
        None
    }
}

/// `serde_json::Value::as_str`: the characters of a string, and none for any other value.
#[verifier::external_body]
pub(crate) fn json_text(value: &serde_json::Value) -> (r: Option<&str>)
    ensures
        match r {
            Some(s) => text_at(document_of(*value), Seq::empty()) == Some(s@),
            None => text_at(document_of(*value), Seq::empty()) is None,
        },
{
    value.as_str()
}

/// `serde_json::Value::as_u64`: an integer from 0 to `u64::MAX`, and none for any other value.
#[verifier::external_body]
pub(crate) fn json_count(value: &serde_json::Value) -> (r: Option<u64>)
    ensures
        r == count_at(document_of(*value), Seq::empty()),
{
    value.as_u64()
}

/// The text at a place of a value, if there is a text.
pub fn read_text(value: &serde_json::Value, pointer: &str) -> (r: Option<String>)
    ensures
        crate::text::opt_text(r) == text_at(document_of(*value), pointer@),
{
    match json_at(value, pointer) {
        Some(part) => {
            assert(pointer@ + Seq::<char>::empty() =~= pointer@);
            match json_text(part) {
                Some(s) => Some(s.to_owned()),
                None => None,
            }
        },
        None => None,
    }
}

/// The count at a place of a value, if there is a count.
pub fn read_count(value: &serde_json::Value, pointer: &str) -> (r: Option<u64>)
    ensures
        r == count_at(document_of(*value), pointer@),
{
    match json_at(value, pointer) {
        Some(part) => {
            assert(pointer@ + Seq::<char>::empty() =~= pointer@);
            json_count(part)
        },
        None => None,
    }
}

/// What is read at a place is the text or the count that stands there, and nothing where anything
/// else or nothing at all stands there.
pub proof fn places_are_read_for_what_they_hold(doc: JsonDoc, pointer: Seq<char>)
    ensures
        text_at(doc, pointer) is Some <==> doc.contains_key(pointer) && doc[pointer] is Text,
        doc.contains_key(pointer) ==> (doc[pointer] matches JsonNode::Text(s) ==> text_at(
            doc,
            pointer,
        ) == Some(s)),
        count_at(doc, pointer) is Some <==> doc.contains_key(pointer) && doc[pointer] is Count,
        doc.contains_key(pointer) ==> (doc[pointer] matches JsonNode::Count(n) ==> count_at(
            doc,
            pointer,
        ) == Some(n)),
{
}

} // verus!
