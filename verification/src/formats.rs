//! The formats that an archive is made of, each read by the crate that
//! implements it. Nothing here is proved: every contract in this file states
//! what the named outside function is trusted to do.

use crate::document::Tree;
use vstd::prelude::*;
use vstd::utf8::{decode_utf8, valid_utf8};

verus! {

#[verifier::external_type_specification]
#[verifier::external_body]
pub struct ExTomlValue(toml::Value);

#[verifier::external_type_specification]
#[verifier::external_body]
pub struct ExTomlError(toml::de::Error);

#[verifier::external_type_specification]
#[verifier::external_body]
pub struct ExJsonValue(serde_json::Value);

#[verifier::external_type_specification]
#[verifier::external_body]
pub struct ExJsonError(serde_json::Error);

/// The document that `text` is in TOML, if it is one.
pub uninterp spec fn toml_document(text: Seq<char>) -> Option<Tree>;

/// What a TOML value holds.
pub uninterp spec fn toml_content(value: toml::Value) -> Tree;

/// The value that `text` is in JSON, if it is one.
pub uninterp spec fn json_document(text: Seq<char>) -> Option<Tree>;

/// What a JSON value holds.
pub uninterp spec fn json_content(value: serde_json::Value) -> Tree;

/// What looking up `name` in the ZIP archive `bytes` yields.
pub uninterp spec fn zip_entry(bytes: Seq<u8>, name: Seq<char>) -> EntryContent;

/// Mathematical model of an [`Entry`].
pub enum EntryContent {
    NotAnArchive,
    Absent,
    Unreadable,
    Content(Seq<u8>),
}

/// The outcome of looking up a named entry in an archive.
#[derive(Debug)]
pub enum Entry {
    /// The bytes are not an archive that can be opened.
    NotAnArchive,
    /// The archive hands out no entry of that name.
    Absent,
    /// The entry is there, but its content cannot be read in full.
    Unreadable,
    /// The entry's content.
    Content(Vec<u8>),
}

impl View for Entry {
    type V = EntryContent;

    open spec fn view(&self) -> EntryContent {
        match self {
            Entry::NotAnArchive => EntryContent::NotAnArchive,
            Entry::Absent => EntryContent::Absent,
            Entry::Unreadable => EntryContent::Unreadable,
            Entry::Content(bytes) => EntryContent::Content(bytes@),
        }
    }
}

/// `toml::from_str`, reading a table: succeeds exactly on the texts that are
/// TOML documents, and then hands out the document's root table.
#[verifier::external_body]
pub(crate) fn toml_from_str(text: &str) -> (parsed: Result<toml::Value, toml::de::Error>)
    ensures
        match parsed {
            Ok(root) => toml_document(text@) == Some(toml_content(root)),
            Err(_) => toml_document(text@) is None,
        },
{
    toml::from_str::<toml::Table>(text).map(toml::Value::Table)
}

/// `toml::Value::get` with a string index: the value under `key` where
/// `value` is a table that holds the key, nothing otherwise.
#[verifier::external_body]
pub(crate) fn toml_get<'a>(value: &'a toml::Value, key: &str) -> (found: Option<&'a toml::Value>)
    ensures
        match found {
            Some(item) => toml_content(*value).get(key@) == Some(toml_content(*item)),
            None => toml_content(*value).get(key@) is None,
        },
{
    value.get(key)
}

/// `toml::Value::as_array`: the items where `value` is an array.
#[verifier::external_body]
pub(crate) fn toml_as_array<'a>(value: &'a toml::Value) -> (found: Option<&'a Vec<toml::Value>>)
    ensures
        match found {
            Some(items) => toml_content(*value).as_array() == Some(
                items@.map_values(|item: toml::Value| toml_content(item)),
            ),
            None => toml_content(*value).as_array() is None,
        },
{
    value.as_array()
}

/// `toml::Value::as_str`: the text where `value` is a string.
#[verifier::external_body]
pub(crate) fn toml_as_str<'a>(value: &'a toml::Value) -> (found: Option<&'a str>)
    ensures
        match found {
            Some(text) => toml_content(*value).as_str() == Some(text@),
            None => toml_content(*value).as_str() is None,
        },
{
    value.as_str()
}

/// `toml::Value::as_bool`: the flag where `value` is a boolean.
#[verifier::external_body]
pub(crate) fn toml_as_bool(value: &toml::Value) -> (found: Option<bool>)
    ensures
        found == toml_content(*value).as_bool(),
{
    value.as_bool()
}

/// `toml::Value::is_table`: whether `value` is a table.
#[verifier::external_body]
pub(crate) fn toml_is_table(value: &toml::Value) -> (table: bool)
    ensures
        table == (toml_content(*value) is Table),
{
    value.is_table()
}

/// `serde_json::from_str`, reading a value: succeeds exactly on the texts
/// that are JSON, and then hands out the value.
#[verifier::external_body]
pub(crate) fn json_from_str(text: &str) -> (parsed: Result<serde_json::Value, serde_json::Error>)
    ensures
        match parsed {
            Ok(root) => json_document(text@) == Some(json_content(root)),
            Err(_) => json_document(text@) is None,
        },
{
    serde_json::from_str::<serde_json::Value>(text)
}

/// `serde_json::Value::get` with a string index: the value under `key` where
/// `value` is an object that holds the key, nothing otherwise.
#[verifier::external_body]
pub(crate) fn json_get<'a>(value: &'a serde_json::Value, key: &str) -> (found: Option<
    &'a serde_json::Value,
>)
    ensures
        match found {
            Some(item) => json_content(*value).get(key@) == Some(json_content(*item)),
            None => json_content(*value).get(key@) is None,
        },
{
    value.get(key)
}

/// `serde_json::Value::as_array`: the items where `value` is an array.
#[verifier::external_body]
pub(crate) fn json_as_array<'a>(value: &'a serde_json::Value) -> (found: Option<
    &'a Vec<serde_json::Value>,
>)
    ensures
        match found {
            Some(items) => json_content(*value).as_array() == Some(
                items@.map_values(|item: serde_json::Value| json_content(item)),
            ),
            None => json_content(*value).as_array() is None,
        },
{
    value.as_array()
}

/// `serde_json::Value::as_str`: the text where `value` is a string.
#[verifier::external_body]
pub(crate) fn json_as_str<'a>(value: &'a serde_json::Value) -> (found: Option<&'a str>)
    ensures
        match found {
            Some(text) => json_content(*value).as_str() == Some(text@),
            None => json_content(*value).as_str() is None,
        },
{
    value.as_str()
}

/// `zip::ZipArchive::new` on the bytes, `by_name` on the archive, then the
/// entry read to its end: which of the three first fails, or the content.
#[verifier::external_body]
pub(crate) fn read_entry(bytes: &Vec<u8>, name: &str) -> (entry: Entry)
    ensures
        entry@ == zip_entry(bytes@, name@),
{
    let Ok(mut archive) = zip::ZipArchive::new(std::io::Cursor::new(bytes.as_slice())) else {
        return Entry::NotAnArchive;
    };
    let Ok(mut file) = archive.by_name(name) else {
        return Entry::Absent;
    };
    let mut content = Vec::new();
    match std::io::Read::read_to_end(&mut file, &mut content) {
        Ok(_) => Entry::Content(content),
        Err(_) => Entry::Unreadable,
    }
}

/// `String::from_utf8`: the text that the bytes spell where they are valid
/// UTF-8, nothing otherwise.
#[verifier::external_body]
pub(crate) fn text_from_utf8(bytes: Vec<u8>) -> (found: Option<String>)
    ensures
        match found {
            Some(text) => valid_utf8(bytes@) && text@ == decode_utf8(bytes@),
            None => !valid_utf8(bytes@),
        },
{
    String::from_utf8(bytes).ok()
}

} // verus!
