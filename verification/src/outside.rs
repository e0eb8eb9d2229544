//! What the crate takes on trust: calls into `serde_json`, `sha2`, `http` and
//! the standard library, with what is claimed of each.

use crate::json;
use sha2::{Digest, Sha256};
use vstd::prelude::*;
use vstd::utf8::*;

verus! {

/// Calls `serde_json::to_string` on a string slice, which never fails.
/// Claimed: the result is the text between double quotes, with `"`, `\` and the
/// characters below U+0020 written as escape sequences and every other
/// character as it is.
#[verifier::external_body]
pub(crate) fn quote(s: &str) -> (quoted: String)
    ensures
        quoted@ == json::quoted(s@),
{
    serde_json::to_string(s).unwrap_or_default()
}

/// A JSON document as `serde_json` holds it.
#[verifier::external_type_specification]
#[verifier::external_body]
pub struct ExDocument(serde_json::Value);

/// The tree that a document holds: its elements and members in the order in
/// which `serde_json` walks them, each number as the text that it displays.
pub uninterp spec fn document_tree(document: serde_json::Value) -> json::Json;

/// What `serde_json` reads from a text: the tree of the document, or nothing
/// where the text is not one JSON value.
pub uninterp spec fn parsed_json(text: Seq<char>) -> Option<json::Json>;

/// Calls `serde_json::from_str`. Claimed: whether the text is read, and the
/// tree that comes out, depend on the text alone.
#[verifier::external_body]
pub(crate) fn parse_document(text: &str) -> (document: Option<serde_json::Value>)
    ensures
        match document {
            Some(value) => parsed_json(text@) == Some(document_tree(value)),
            None => parsed_json(text@) is None,
        },
{
    serde_json::from_str(text).ok()
}

/// One level of a JSON document.
pub enum DocumentParts {
    Null,
    Bool(bool),
    Number(String),
    Text(String),
    Array(Vec<serde_json::Value>),
    Object(Vec<(String, serde_json::Value)>),
}

/// Takes one level of a `serde_json::Value` apart, with `Number::to_string` for
/// a number and `Map::into_iter` for an object. Claimed: the parts are those of
/// the tree, a number is written with the characters that numbers are written
/// with, and an object names no member twice.
#[verifier::external_body]
pub(crate) fn open_document(document: serde_json::Value) -> (parts: DocumentParts)
    ensures
        match parts {
            DocumentParts::Null => document_tree(document) == json::Json::Null,
            DocumentParts::Bool(b) => document_tree(document) == json::Json::Bool(b),
            DocumentParts::Number(t) => document_tree(document) == json::Json::Number(t@)
                && json::number_text(t@),
            DocumentParts::Text(t) => document_tree(document) == json::Json::Text(t@),
            DocumentParts::Array(items) => document_tree(document) == json::Json::Array(
                Seq::new(items@.len(), |i: int| document_tree(items@[i])),
            ),
            DocumentParts::Object(members) => document_tree(document) == json::Json::Object(
                Seq::new(members@.len(), |i: int| (members@[i].0@, document_tree(members@[i].1))),
            ) && json::distinct_names(
                Seq::new(members@.len(), |i: int| (members@[i].0@, document_tree(members@[i].1))),
            ),
        },
{
    match document {
        serde_json::Value::Null => DocumentParts::Null,
        serde_json::Value::Bool(b) => DocumentParts::Bool(b),
        serde_json::Value::Number(n) => DocumentParts::Number(n.to_string()),
        serde_json::Value::String(s) => DocumentParts::Text(s),
        serde_json::Value::Array(items) => DocumentParts::Array(items),
        serde_json::Value::Object(map) => DocumentParts::Object(map.into_iter().collect()),
    }
}

/// The text that bytes stand for, with a replacement character in place of what
/// is not UTF-8.
pub uninterp spec fn lossy_text(bytes: Seq<u8>) -> Seq<char>;

/// Calls `String::from_utf8_lossy`. Claimed: the text depends on the bytes alone,
/// and bytes that are UTF-8 stand for the text that they encode. Where the
/// replacement characters stand in other cases is left unsaid.
#[verifier::external_body]
pub(crate) fn decode_lossy(bytes: &[u8]) -> (decoded: String)
    ensures
        decoded@ == lossy_text(bytes@),
        valid_utf8(bytes@) ==> decoded@ == decode_utf8(bytes@),
{
    String::from_utf8_lossy(bytes).into_owned()
}

/// The SHA-256 digest of bytes.
pub uninterp spec fn sha256(data: Seq<u8>) -> Seq<u8>;

/// Calls `sha2::Sha256::digest`. Claimed: the digest depends on the bytes alone.
/// What it is on given bytes is left unsaid.
#[verifier::external_body]
pub(crate) fn digest_of(data: &[u8]) -> (digest: [u8; 32])
    ensures
        digest@ == sha256(data@),
{
    Sha256::digest(data).into()
}

/// The headers of a message, as `http` holds them.
#[verifier::external_type_specification]
#[verifier::external_body]
#[verifier::reject_recursive_types(T)]
pub struct ExHeaderMap<T>(http::HeaderMap<T>);

/// The value of a header, as `http` holds it.
#[verifier::external_type_specification]
#[verifier::external_body]
pub struct ExHeaderValue(http::HeaderValue);

/// The headers in a map: name, value and whether the value is sensitive, in the
/// order in which the map is walked.
pub uninterp spec fn header_entries(map: http::HeaderMap) -> Seq<(Seq<char>, Seq<u8>, bool)>;

/// The largest number of headers to which one more can always be added.
pub const MAX_HEADERS: usize = 6_553;

/// Whether a character may stand in a header name as `http` reads it.
pub open spec fn token_char(c: char) -> bool {
    ('a' <= c && c <= 'z') || ('A' <= c && c <= 'Z') || ('0' <= c && c <= '9') || c == '!' || c
        == '#' || c == '$' || c == '%' || c == '&' || c == '\'' || c == '*' || c == '+' || c
        == '-' || c == '.' || c == '^' || c == '_' || c == '`' || c == '|' || c == '~'
}

/// A letter in lower case, and every other character as it is.
pub open spec fn lower_case(c: char) -> char {
    if 'A' <= c && c <= 'Z' {
        (c as int + 32) as char
    } else {
        c
    }
}

/// Whether a text can be read as a header name.
pub open spec fn readable_name(name: Seq<char>) -> bool {
    1 <= name.len() <= 65535 && forall|i: int| 0 <= i < name.len() ==> token_char(#[trigger] name[i])
}

/// Whether a text is a header name as it stands in a map: without capital letters.
/// A double quote can stand in a name that was made without being read.
pub open spec fn header_name(name: Seq<char>) -> bool {
    1 <= name.len() <= 65535 && forall|i: int|
        0 <= i < name.len() ==> ((token_char(#[trigger] name[i]) && lower_case(name[i]) == name[i])
            || name[i] == '"')
}

/// Whether a byte may stand in a header value.
pub open spec fn value_byte(b: u8) -> bool {
    b == 9 || (b >= 32 && b != 127)
}

/// Whether bytes are a header value.
pub open spec fn header_value(bytes: Seq<u8>) -> bool {
    forall|i: int| 0 <= i < bytes.len() ==> value_byte(#[trigger] bytes[i])
}

/// Whether a name stands among headers.
pub open spec fn names_header(
    entries: Seq<(Seq<char>, Seq<u8>, bool)>,
    name: Seq<char>,
) -> bool {
    exists|i: int| 0 <= i < entries.len() && (#[trigger] entries[i]).0 == name
}

/// Calls `http::HeaderName::from_bytes`. Claimed: a text of 1 to 65535 token
/// characters is read, with its letters in lower case, and no other text is.
#[verifier::external_body]
pub(crate) fn parse_name(name: &str) -> (parsed: Option<String>)
    ensures
        match parsed {
            Some(text) => readable_name(name@) && text@ == name@.map_values(
                |c: char| lower_case(c),
            ),
            None => !readable_name(name@),
        },
{
    match http::HeaderName::from_bytes(name.as_bytes()) {
        Ok(parsed) => Some(parsed.as_str().to_string()),
        Err(_) => None,
    }
}

/// Calls `http::HeaderValue::from_str`. Claimed: a text is read where no byte of
/// it is a control character other than the tab, and the value holds the bytes of
/// the text.
#[verifier::external_body]
pub(crate) fn parse_value(value: &str) -> (parsed: Option<Vec<u8>>)
    ensures
        match parsed {
            Some(bytes) => header_value(encode_utf8(value@)) && bytes@ == encode_utf8(value@),
            None => !header_value(encode_utf8(value@)),
        },
{
    match http::HeaderValue::from_str(value) {
        Ok(parsed) => Some(parsed.as_bytes().to_vec()),
        Err(_) => None,
    }
}

/// Calls `http::HeaderMap::iter`. Claimed: the list is that of the headers in the
/// map, and each has a name and a value such as a map can hold.
#[verifier::external_body]
pub(crate) fn list_headers(map: &http::HeaderMap) -> (entries: Vec<(String, Vec<u8>, bool)>)
    ensures
        entries@.len() == header_entries(*map).len(),
        forall|i: int|
            0 <= i < entries@.len() ==> header_entries(*map)[i] == (
                (#[trigger] entries@[i]).0@,
                entries@[i].1@,
                entries@[i].2,
            ) && header_name(entries@[i].0@) && header_value(entries@[i].1@),
{
    map.iter().map(
        |(name, value)|
            (name.as_str().to_string(), value.as_bytes().to_vec(), value.is_sensitive()),
    ).collect()
}

/// Calls `http::HeaderMap::contains_key`. Claimed: the answer is whether a header
/// of that name stands in the map.
#[verifier::external_body]
pub(crate) fn has_header(map: &http::HeaderMap, name: &str) -> (answer: bool)
    requires
        header_name(name@),
    ensures
        answer == names_header(header_entries(*map), name@),
{
    match http::HeaderName::from_lowercase(name.as_bytes()) {
        Ok(name) => map.contains_key(&name),
        Err(_) => false,
    }
}

/// Calls `http::HeaderMap::try_insert` with a name that is not in the map. Claimed:
/// where the map takes the header, it stands behind those that were there; where it
/// does not, the headers stay as they were; and a map that holds no more than
/// `MAX_HEADERS` headers takes it. Whether a larger map does, depends on how often its
/// table has grown, and is left unsaid.
#[verifier::external_body]
pub(crate) fn insert_header(
    map: &mut http::HeaderMap,
    name: &str,
    value: &[u8],
    sensitive: bool,
) -> (taken: bool)
    requires
        header_name(name@),
        header_value(value@),
        !names_header(header_entries(*old(map)), name@),
    ensures
        header_entries(*final(map)) == if taken {
            header_entries(*old(map)).push((name@, value@, sensitive))
        } else {
            header_entries(*old(map))
        },
        header_entries(*old(map)).len() <= MAX_HEADERS ==> taken,
{
    match (
        http::HeaderName::from_lowercase(name.as_bytes()),
        http::HeaderValue::from_bytes(value),
    ) {
        (Ok(name), Ok(mut value)) => {
            value.set_sensitive(sensitive);
            map.try_insert(name, value).is_ok()
        },
        _ => false,
    }
}

} // verus!
