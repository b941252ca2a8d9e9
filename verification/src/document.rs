//! Parsed JSON and TOML documents, as `serde_json` and `toml` hand them out:
//! what the rest of the crate knows of them.
//!
//! The documents themselves stay opaque. Their contents have names here, and
//! each outside function that reads them is described over those names.

use vstd::prelude::*;

verus! {

/// What a parsed document holds at one place.
pub struct Node {
    pub shape: Shape,
    /// The value as its crate prints it. `None` for a value that cannot be
    /// printed: a date that is in no calendar, which no document holds.
    pub printed: Option<Seq<char>>,
}

/// What is in a value, as far as this crate tells values apart.
pub enum Shape {
    Text(Seq<char>),
    Flag(bool),
    List(Seq<Node>),
    Table(Map<Seq<char>, Node>),
    Other,
}

impl Node {
    /// The text that the value is, if it is one.
    pub open spec fn text(self) -> Option<Seq<char>> {
        match self.shape {
            Shape::Text(text) => Some(text),
            _ => None,
        }
    }

    /// The value under `key`, if this is a table that has one.
    pub open spec fn field(self, key: Seq<char>) -> Option<Node> {
        match self.shape {
            Shape::Table(entries) => entry(entries, key),
            _ => None,
        }
    }

    /// The values in the list, if this is one.
    pub open spec fn items(self) -> Option<Seq<Node>> {
        match self.shape {
            Shape::List(items) => Some(items),
            _ => None,
        }
    }

    /// Whether the value, and every value inside it, can be printed.
    pub open spec fn prints(self) -> bool
        decreases self,
    {
        &&& self.printed is Some
        &&& match self.shape {
            Shape::List(items) => forall|i: int|
                0 <= i < items.len() ==> (#[trigger] items[i]).prints(),
            Shape::Table(entries) => entries.dom().finite() && forall|key: Seq<char>|
                entries.dom().contains(key) ==> (#[trigger] entries[key]).prints(),
            _ => true,
        }
    }
}

/// The value under `key`, if there is one.
pub open spec fn entry(entries: Map<Seq<char>, Node>, key: Seq<char>) -> Option<Node> {
    if entries.dom().contains(key) {
        Some(entries[key])
    } else {
        None
    }
}

/// Whether every value in a table can be printed.
pub open spec fn all_print(entries: Map<Seq<char>, Node>) -> bool {
    forall|key: Seq<char>| entries.dom().contains(key) ==> (#[trigger] entries[key]).prints()
}

/// What is inside a value that can be printed can be printed.
pub proof fn lemma_field_prints(node: Node, key: Seq<char>)
    requires
        node.prints(),
    ensures
        node.field(key) matches Some(inner) ==> inner.prints() && inner.printed is Some,
{
    if let Shape::Table(entries) = node.shape {
        if entries.dom().contains(key) {
            assert(entries[key].prints());
        }
    }
}

/// The value at a path of keys that starts at `node`.
pub open spec fn descend(node: Node, path: Seq<Seq<char>>) -> Option<Node>
    decreases path.len(),
{
    if path.len() == 0 {
        Some(node)
    } else {
        match node.field(path[0]) {
            Some(inner) => descend(inner, path.drop_first()),
            None => None,
        }
    }
}

/// The text at a path of keys that starts at `node`.
pub open spec fn text_at(node: Node, path: Seq<Seq<char>>) -> Option<Seq<char>> {
    match descend(node, path) {
        Some(found) => found.text(),
        None => None,
    }
}

/// The text at a path of keys that starts in a table. No text is at the empty
/// path.
pub open spec fn entry_text_at(
    entries: Map<Seq<char>, Node>,
    path: Seq<Seq<char>>,
) -> Option<Seq<char>> {
    if path.len() == 0 {
        None
    } else {
        match entry(entries, path[0]) {
            Some(inner) => text_at(inner, path.drop_first()),
            None => None,
        }
    }
}

// ---------------------------------------------------------------------------
// JSON

/// `serde_json::Value`.
#[verifier::external_type_specification]
#[verifier::external_body]
pub struct ExJsonValue(serde_json::Value);

/// What a `serde_json::Value` holds: its string, its flag, its list or the
/// members of its object, and its compact form as `Display` prints it.
pub uninterp spec fn json_node(value: serde_json::Value) -> Node;

/// What `serde_json::from_str::<Value>` makes of a text: the value that it
/// spells, or the reason why it spells none.
pub uninterp spec fn json_document(source: Seq<char>) -> Result<Node, Seq<char>>;

/// What `serde_json::from_str::<String>` makes of a text: the string that it
/// spells, if it spells one.
pub uninterp spec fn json_text(literal: Seq<char>) -> Option<Seq<char>>;

/// `serde_json::from_str::<Value>`: the value that `source` spells, or the
/// message of the error. Which texts spell which values is left to the name.
#[verifier::external_body]
pub(crate) fn parse_json(source: &str) -> (parsed: Result<serde_json::Value, String>)
    ensures
        match parsed {
            Ok(value) => json_document(source@) == Ok::<Node, Seq<char>>(json_node(value)),
            Err(reason) => json_document(source@) == Err::<Node, Seq<char>>(reason@),
        },
{
    serde_json::from_str(source).map_err(|error| error.to_string())
}

/// `serde_json::from_str::<String>`: the string that `literal` spells. Which
/// texts spell which strings is left to the name.
#[verifier::external_body]
pub(crate) fn parse_json_text(literal: &str) -> (text: Option<String>)
    ensures
        match text {
            Some(spelled) => json_text(literal@) == Some(spelled@),
            None => json_text(literal@) is None,
        },
{
    serde_json::from_str(literal).ok()
}

/// `serde_json::Value::get` with a string: the member of that name, if the
/// value is an object that has one.
#[verifier::external_body]
pub(crate) fn json_get<'a>(value: &'a serde_json::Value, key: &str) -> (member: Option<
    &'a serde_json::Value,
>)
    ensures
        match member {
            Some(inner) => json_node(*value).field(key@) == Some(json_node(*inner)),
            None => json_node(*value).field(key@) is None,
        },
{
    value.get(key)
}

/// `serde_json::Value::as_str`: the string, if the value is one.
pub assume_specification[ serde_json::Value::as_str ](value: &serde_json::Value) -> (text: Option<
    &str,
>)
    ensures
        match text {
            Some(held) => json_node(*value).text() == Some(held@),
            None => json_node(*value).text() is None,
        },
;

/// `serde_json::Value::to_string`: the compact form, which every value has.
#[verifier::external_body]
pub(crate) fn print_json(value: &serde_json::Value) -> (text: String)
    ensures
        json_node(*value).printed == Some(text@),
{
    value.to_string()
}

// ---------------------------------------------------------------------------
// TOML

/// `toml::Value`.
#[verifier::external_type_specification]
#[verifier::external_body]
pub struct ExTomlValue(toml::Value);

/// `toml::map::Map`, of which `toml::Table` is one.
#[verifier::external_type_specification]
#[verifier::external_body]
#[verifier::reject_recursive_types(K)]
#[verifier::reject_recursive_types(V)]
pub struct ExTomlMap<K, V>(toml::map::Map<K, V>);

/// What a `toml::Value` holds: its string, its flag, its list or the entries
/// of its table, and its form as `Display` prints it.
pub uninterp spec fn toml_node(value: toml::Value) -> Node;

/// The entries of a `toml::Table`, each value as [`toml_node`] gives it.
pub uninterp spec fn toml_entries(table: toml::Table) -> Map<Seq<char>, Node>;

/// What `toml::Table`'s `FromStr` makes of a text: the entries of the document
/// that it spells, or the reason why it spells none.
pub uninterp spec fn toml_document(source: Seq<char>) -> Result<
    Map<Seq<char>, Node>,
    Seq<char>,
>;

/// `str::parse::<toml::Table>`: the table that `source` spells, or the message
/// of the error. Every value in it can be printed. Which texts spell which
/// tables is left to the name.
#[verifier::external_body]
pub fn parse_toml(source: &str) -> (parsed: Result<toml::Table, String>)
    ensures
        match parsed {
            Ok(table) => toml_document(source@) == Ok::<Map<Seq<char>, Node>, Seq<char>>(
                toml_entries(table),
            ) && all_print(toml_entries(table)),
            Err(reason) => toml_document(source@) == Err::<Map<Seq<char>, Node>, Seq<char>>(
                reason@,
            ),
        },
{
    source.parse::<toml::Table>().map_err(|error| error.message().to_owned())
}

/// `toml::Table::get`: the value under a key, if there is one.
#[verifier::external_body]
pub(crate) fn toml_get<'a>(table: &'a toml::Table, key: &str) -> (value: Option<&'a toml::Value>)
    ensures
        match value {
            Some(inner) => entry(toml_entries(*table), key@) == Some(toml_node(*inner)),
            None => entry(toml_entries(*table), key@) is None,
        },
{
    table.get(key)
}

/// `toml::Value::get` with a string: the value under that key, if the value is
/// a table that has one.
#[verifier::external_body]
pub(crate) fn toml_field<'a>(value: &'a toml::Value, key: &str) -> (field: Option<&'a toml::Value>)
    ensures
        match field {
            Some(inner) => toml_node(*value).field(key@) == Some(toml_node(*inner)),
            None => toml_node(*value).field(key@) is None,
        },
{
    value.get(key)
}

/// `toml::Value::as_str`: the string, if the value is one.
pub assume_specification[ toml::Value::as_str ](value: &toml::Value) -> (text: Option<&str>)
    ensures
        match text {
            Some(held) => toml_node(*value).text() == Some(held@),
            None => toml_node(*value).text() is None,
        },
;

/// `toml::Value::as_bool`: the flag, if the value is one.
pub assume_specification[ toml::Value::as_bool ](value: &toml::Value) -> (flag: Option<bool>)
    ensures
        match flag {
            Some(held) => toml_node(*value).shape == Shape::Flag(held),
            None => !(toml_node(*value).shape is Flag),
        },
;

/// `toml::Value::as_array`: the list, if the value is one.
pub assume_specification[ toml::Value::as_array ](value: &toml::Value) -> (items: Option<
    &Vec<toml::Value>,
>)
    ensures
        match items {
            Some(held) => toml_node(*value).items() == Some(
                Seq::new(held@.len(), |i: int| toml_node(held@[i])),
            ),
            None => toml_node(*value).items() is None,
        },
;

/// `toml::Value::as_table`: the table, if the value is one.
pub assume_specification[ toml::Value::as_table ](value: &toml::Value) -> (table: Option<
    &toml::Table,
>)
    ensures
        match table {
            Some(held) => toml_node(*value).shape == Shape::Table(toml_entries(*held)),
            None => !(toml_node(*value).shape is Table),
        },
;

/// `toml::Value::to_string`: how the value prints, where it can be printed.
#[verifier::external_body]
pub(crate) fn print_toml(value: &toml::Value) -> (text: String)
    requires
        toml_node(*value).printed is Some,
    ensures
        toml_node(*value).printed == Some(text@),
{
    value.to_string()
}

} // verus!
