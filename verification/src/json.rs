//! The output tree, held in the JSON types of `serde_json`.
//!
//! Verus does not look inside a `serde_json::Value` or a `serde_json::Map`.
//! This module says what they hold, as a [`Tree`], and gives a contract to
//! each `serde_json` call that the library makes. Those contracts are
//! believed, not proved: they restate what `serde_json` documents.

use vstd::prelude::*;

verus! {

/// `serde_json::Value`, a JSON value: carried through, never opened.
#[verifier::external_type_specification]
#[verifier::external_body]
pub struct ExValue(serde_json::Value);

/// `serde_json::Map`, a JSON object: carried through, never opened.
#[verifier::external_type_specification]
#[verifier::external_body]
#[verifier::reject_recursive_types(K)]
#[verifier::reject_recursive_types(V)]
pub struct ExMap<K, V>(serde_json::Map<K, V>);

/// A node of the output tree: a JSON object.
pub type Node = serde_json::Map<String, serde_json::Value>;

/// What a JSON value holds.
pub enum Tree {
    /// A string.
    Text(Seq<char>),
    /// An array, in order.
    List(Seq<Tree>),
    /// An object: its values by key.
    Object(Map<Seq<char>, Tree>),
    /// A null, a boolean or a number. The library builds none.
    Scalar,
}

/// What a JSON object holds: its values by key.
pub type Entries = Map<Seq<char>, Tree>;

/// What the JSON value `value` holds. Nothing is proved of it: the
/// contracts below say what it is for the values that the library builds.
pub uninterp spec fn value_tree(value: serde_json::Value) -> Tree;

/// What the JSON object `node` holds: for each key, what the value stored
/// under it holds. Nothing is proved of it: the contracts below say how the
/// calls on an object change it, and that an object has finitely many
/// entries.
pub uninterp spec fn object_entries(node: serde_json::Map<String, serde_json::Value>) -> Entries;

/// What the JSON values `items` hold, one by one.
pub open spec fn trees_of(items: Seq<serde_json::Value>) -> Seq<Tree> {
    Seq::new(items.len(), |i: int| value_tree(items[i]))
}

/// `serde_json::Map::new`: an object without entries.
#[verifier::external_body]
pub(crate) fn new_object() -> (node: Node)
    ensures
        object_entries(node) == Entries::empty(),
        object_entries(node).dom().finite(),
{
    serde_json::Map::new()
}

/// `serde_json::Map::insert`: afterwards `key` maps to `value`, whether or
/// not the object had an entry for `key`; the other entries are unchanged.
/// The object has finitely many entries.
#[verifier::external_body]
pub(crate) fn object_insert(node: &mut Node, key: String, value: serde_json::Value)
    ensures
        object_entries(*final(node)) == object_entries(*old(node)).insert(key@, value_tree(value)),
        object_entries(*final(node)).dom().finite(),
{
    node.insert(key, value);
}

/// `serde_json::Map::len`: the number of entries.
#[verifier::external_body]
pub(crate) fn object_len(node: &Node) -> (count: usize)
    ensures
        count == object_entries(*node).len(),
{
    node.len()
}

/// `serde_json::Map::get`: the value stored under `key`, if there is one.
#[verifier::external_body]
pub(crate) fn object_get<'a>(node: &'a Node, key: &str) -> (found: Option<&'a serde_json::Value>)
    ensures
        match found {
            Some(value) => object_entries(*node).contains_key(key@) && value_tree(*value)
                == object_entries(*node)[key@],
            None => !object_entries(*node).contains_key(key@),
        },
{
    node.get(key)
}

/// `serde_json::Map::get_mut`: the value stored under `key`, if there is
/// one, for changing in place. What the value holds when the borrow ends is
/// what the object then holds under `key`; nothing else changes. The object
/// has finitely many entries.
#[verifier::external_body]
pub(crate) fn object_get_mut<'a>(node: &'a mut Node, key: &str) -> (found: Option<
    &'a mut serde_json::Value,
>)
    ensures
        match found {
            Some(value) => object_entries(*old(node)).contains_key(key@) && value_tree(*value)
                == object_entries(*old(node))[key@] && object_entries(*final(node))
                == object_entries(*old(node)).insert(key@, value_tree(*final(value))),
            None => !object_entries(*old(node)).contains_key(key@) && *final(node) == *old(node),
        },
        object_entries(*final(node)).dom().finite(),
{
    node.get_mut(key)
}

/// `serde_json::Value::is_array`: whether the value is an array.
#[verifier::external_body]
pub(crate) fn value_is_array(value: &serde_json::Value) -> (yes: bool)
    ensures
        yes == (value_tree(*value) is List),
{
    value.is_array()
}

/// `serde_json::Value::as_array_mut`: the items of an array, for changing in
/// place; nothing for any other value. The items held when the borrow ends
/// are the items of the array from then on.
#[verifier::external_body]
pub(crate) fn value_as_array_mut<'a>(value: &'a mut serde_json::Value) -> (found: Option<
    &'a mut Vec<serde_json::Value>,
>)
    ensures
        match found {
            Some(items) => value_tree(*old(value)) == Tree::List(trees_of(items@)) && value_tree(
                *final(value),
            ) == Tree::List(trees_of(final(items)@)),
            None => !(value_tree(*old(value)) is List) && *final(value) == *old(value),
        },
{
    value.as_array_mut()
}

/// `serde_json::Value::String`: the JSON string with the given text.
#[verifier::external_body]
pub(crate) fn text_value(text: String) -> (value: serde_json::Value)
    ensures
        value_tree(value) == Tree::Text(text@),
{
    serde_json::Value::String(text)
}

/// `serde_json::Value::Array`: the JSON array of the given items, in order.
#[verifier::external_body]
pub(crate) fn list_value(items: Vec<serde_json::Value>) -> (value: serde_json::Value)
    ensures
        value_tree(value) == Tree::List(trees_of(items@)),
{
    serde_json::Value::Array(items)
}

/// `serde_json::Value::Object`: the JSON value that is the given object.
#[verifier::external_body]
pub(crate) fn object_value(node: Node) -> (value: serde_json::Value)
    ensures
        value_tree(value) == Tree::Object(object_entries(node)),
{
    serde_json::Value::Object(node)
}

} // verus!
