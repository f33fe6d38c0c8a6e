//! TOML documents, as far as the rules read them.

use vstd::prelude::*;

verus! {

/// A value in a document. Numbers and dates, which no rule reads, are not
/// told apart.
pub enum Node {
    Text(Seq<char>),
    Flag(bool),
    List(Seq<Node>),
    Table(vstd::map::Map<Seq<char>, Node>),
    Unread,
}

#[verifier::external_type_specification]
#[verifier::external_body]
pub struct ExTomlError(toml::de::Error);

#[verifier::external_type_specification]
#[verifier::external_body]
pub struct ExTomlValue<'i>(toml::de::DeValue<'i>);

/// What a TOML value holds.
pub uninterp spec fn held(value: toml::de::DeValue) -> Node;

/// The table that a text is the TOML of; nothing where it is not TOML.
pub uninterp spec fn parsed(text: Seq<char>) -> Option<vstd::map::Map<Seq<char>, Node>>;

/// A text is TOML all of whose values can be decoded, whatever they are: no
/// number is beyond what `toml` decodes numbers to.
pub uninterp spec fn decodable(text: Seq<char>) -> bool;

/// The table that a text holds, where it is a document that can be decoded.
pub open spec fn document_in(text: Seq<char>) -> Option<vstd::map::Map<Seq<char>, Node>> {
    if decodable(text) {
        parsed(text)
    } else {
        None
    }
}

/// `toml::de::DeTable::parse`, with the table as a value. Whether a text is
/// TOML, and what it then holds, is taken from `toml`. Numbers are left as
/// they are written.
#[verifier::external_body]
pub(crate) fn parse<'a>(text: &'a str) -> (r: Result<toml::de::DeValue<'a>, toml::de::Error>)
    ensures
        match r {
            Ok(value) => parsed(text@) is Some && held(value) == Node::Table(parsed(text@)->0),
            Err(_) => parsed(text@) is None,
        },
{
    toml::de::DeTable::parse(text).map(|table| toml::de::DeValue::Table(table.into_inner()))
}

/// `toml::from_str` into `serde::de::IgnoredAny`: decodes every value of a
/// document and keeps none. Whether that succeeds is taken from `toml`.
#[verifier::external_body]
pub(crate) fn decode_unread(text: &str) -> (r: Result<(), toml::de::Error>)
    ensures
        r is Ok <==> decodable(text@),
{
    toml::from_str::<serde::de::IgnoredAny>(text).map(|_| ())
}

/// `serde::de::Error::custom`, for `toml`'s own error: the error that a
/// document has the wrong shape, in the given words. How the error words
/// itself is left unsaid.
#[verifier::external_body]
pub(crate) fn shape_error(words: &str) -> (r: toml::de::Error) {
    serde::de::Error::custom(words)
}

/// What `toml` has to say about a text that does not hold rules, as its
/// error's `to_string` words it. Nothing is claimed of the words.
#[verifier::external_body]
pub(crate) fn wording(error: &toml::de::Error) -> (r: String) {
    error.to_string()
}

/// `toml::de::DeValue::get` with a key: the value under it in a table, and
/// nothing of any other value.
#[verifier::external_body]
pub(crate) fn lookup<'a, 'i>(value: &'a toml::de::DeValue<'i>, key: &str) -> (r: Option<&'a toml::de::DeValue<'i>>)
    ensures
        match r {
            Some(under) => {
                &&& held(*value) matches Node::Table(fields)
                &&& fields.contains_key(key@)
                &&& fields[key@] == held(*under)
            },
            None => !(held(*value) is Table && held(*value)->Table_0.contains_key(key@)),
        },
{
    value.get(key).map(|under| under.get_ref())
}

/// `toml::de::DeValue::get` with an index: the value there in an array, and
/// nothing of any other value.
#[verifier::external_body]
pub(crate) fn item_at<'a, 'i>(value: &'a toml::de::DeValue<'i>, at: usize) -> (r: Option<&'a toml::de::DeValue<'i>>)
    ensures
        match r {
            Some(item) => {
                &&& held(*value) matches Node::List(items)
                &&& at < items.len()
                &&& items[at as int] == held(*item)
            },
            None => !(held(*value) is List && at < held(*value)->List_0.len()),
        },
{
    value.get(at).map(|item| item.get_ref())
}

/// `key` is the one key of the table.
pub open spec fn sole_key(table: vstd::map::Map<Seq<char>, Node>, key: Seq<char>) -> bool {
    table.dom() == Set::<Seq<char>>::empty().insert(key)
}

/// `toml::map::Map::len` of a table: how many keys it has, and nothing of any
/// other value. What is claimed is only when there is none, and when there is
/// one.
#[verifier::external_body]
pub(crate) fn key_count(value: &toml::de::DeValue) -> (r: Option<usize>)
    ensures
        match r {
            Some(n) => {
                &&& held(*value) matches Node::Table(fields)
                &&& n == 0 <==> fields.dom() == Set::<Seq<char>>::empty()
                &&& n == 1 <==> exists|key: Seq<char>| sole_key(fields, key)
            },
            None => !(held(*value) is Table),
        },
{
    value.as_table().map(|fields| fields.len())
}

/// The length of the slice that `toml::de::DeValue::as_array` gives: how many
/// values an array has, and nothing of any other value.
#[verifier::external_body]
pub(crate) fn item_count(value: &toml::de::DeValue) -> (r: Option<usize>)
    ensures
        match r {
            Some(n) => held(*value) is List && n == held(*value)->List_0.len(),
            None => !(held(*value) is List),
        },
{
    value.as_array().map(|items| items.len())
}

/// `toml::de::DeValue::as_str`: the text, of a string and of nothing else.
#[verifier::external_body]
pub(crate) fn text_held<'a>(value: &'a toml::de::DeValue) -> (r: Option<&'a str>)
    ensures
        match r {
            Some(s) => held(*value) == Node::Text(s@),
            None => !(held(*value) is Text),
        },
{
    value.as_str()
}

/// `toml::de::DeValue::as_bool`: the flag, of a boolean and of nothing else.
#[verifier::external_body]
pub(crate) fn flag_held(value: &toml::de::DeValue) -> (r: Option<bool>)
    ensures
        match r {
            Some(b) => held(*value) == Node::Flag(b),
            None => !(held(*value) is Flag),
        },
{
    value.as_bool()
}

} // verus!
