//! Building tree nodes: a leaf from a raw segment, and a matched child
//! folded into its parent.

use crate::grammar::{ElementView, SchemaElement};
use crate::json::{
    new_object, object_entries, object_get, object_get_mut, object_insert, object_value,
    list_value, text_value, trees_of, value_as_array_mut, value_is_array, value_tree, Entries,
    Node, Tree,
};
use crate::text::{decimal, decimal_string, lemma_decimal_injective};
use vstd::prelude::*;

verus! {

/// The position, from 1 on, that the key `key` names.
pub open spec fn field_position(key: Seq<char>) -> nat {
    choose|n: nat| key == decimal(n)
}

/// The leaf node of a raw segment: every field but the first, the segment
/// code, stored as text under the decimal numeral of its position.
pub open spec fn leaf_node(fields: Seq<Seq<char>>) -> Entries {
    Map::new(
        |key: Seq<char>| exists|n: nat| 1 <= n < fields.len() && key == decimal(n),
        |key: Seq<char>| Tree::Text(fields[field_position(key) as int]),
    )
}

/// Each field after the segment code is found under its position, and the
/// leaf has no other key.
pub proof fn lemma_leaf_node_fields(fields: Seq<Seq<char>>)
    ensures
        forall|n: nat|
            1 <= n < fields.len() ==> leaf_node(fields).contains_key(#[trigger] decimal(n))
                && leaf_node(fields)[decimal(n)] == Tree::Text(fields[n as int]),
        forall|key: Seq<char>| #[trigger]
            leaf_node(fields).contains_key(key) ==> exists|n: nat|
                1 <= n < fields.len() && key == decimal(n),
        fields.len() <= 1 ==> leaf_node(fields) == Entries::empty(),
{
    assert forall|n: nat| 1 <= n < fields.len() implies leaf_node(fields).contains_key(
        #[trigger] decimal(n),
    ) && leaf_node(fields)[decimal(n)] == Tree::Text(fields[n as int]) by {
        lemma_field_position(n);
    }
}

proof fn lemma_field_position(n: nat)
    ensures
        field_position(decimal(n)) == n,
{
    lemma_decimal_injective(n, field_position(decimal(n)));
}

proof fn lemma_leaf_node_extends(fields: Seq<Seq<char>>, n: nat)
    requires
        1 <= n < fields.len(),
    ensures
        leaf_node(fields.take(n as int + 1)) == leaf_node(fields.take(n as int)).insert(
            decimal(n),
            Tree::Text(fields[n as int]),
        ),
{
    let longer = leaf_node(fields.take(n as int + 1));
    let shorter = leaf_node(fields.take(n as int)).insert(decimal(n), Tree::Text(fields[n as int]));
    assert forall|key: Seq<char>| longer.contains_key(key) <==> shorter.contains_key(key) by {
        if longer.contains_key(key) {
            let i = choose|i: nat| 1 <= i < n + 1 && key == decimal(i);
            assert(i < n ==> 1 <= i < fields.take(n as int).len());
        }
        if shorter.contains_key(key) && key != decimal(n) {
            let i = choose|i: nat| 1 <= i < n && key == decimal(i);
            assert(1 <= i < fields.take(n as int + 1).len());
        }
    }
    assert forall|key: Seq<char>| longer.contains_key(key) implies longer[key] == shorter[key] by {
        let i = choose|i: nat| 1 <= i < n + 1 && key == decimal(i);
        lemma_field_position(i);
        if i < n && decimal(i) == decimal(n) {
            lemma_decimal_injective(i, n);
        }
    }
}

/// Projects a raw segment into a leaf node: field `i`, for `i` from 1 on, is
/// stored under the key that is the decimal numeral of `i`. The segment code,
/// field 0, is dropped; empty fields are kept as empty strings.
pub fn make_segment(segment: Vec<String>) -> (node: Node)
    ensures
        object_entries(node) == leaf_node(segment.deep_view()),
        object_entries(node).dom().finite(),
{
    let ghost fields = segment.deep_view();
    let mut node = new_object();
    let mut position: usize = 0;
    for value in it: segment
        invariant
            position == it.index(),
            it.seq() == segment@,
            fields == segment.deep_view(),
            segment@.len() == segment.len(),
            object_entries(node) == leaf_node(fields.take(position as int)),
            object_entries(node).dom().finite(),
    {
        if position > 0 {
            proof {
                lemma_leaf_node_extends(fields, position as nat);
            }
            object_insert(&mut node, decimal_string(position), text_value(value));
        }
        position = position + 1;
    }
    assert(fields.take(fields.len() as int) =~= fields);
    node
}

/// The parent node after a matched child has been folded into it under the
/// element's key. A singular element overwrites the entry. A repeatable one
/// appends to the list that the entry holds, or starts a list of one where
/// the entry is missing or holds no list.
pub open spec fn folded(parent: Entries, rule: ElementView, child: Entries) -> Entries {
    let key = rule.key();
    let item = Tree::Object(child);
    if rule.singular() {
        parent.insert(key, item)
    } else if parent.contains_key(key) && parent[key] is List {
        parent.insert(key, Tree::List(parent[key]->List_0.push(item)))
    } else {
        parent.insert(key, Tree::List(seq![item]))
    }
}

/// Folding adds the element's key to the parent and removes none.
pub proof fn lemma_folded_keys(parent: Entries, rule: ElementView, child: Entries)
    ensures
        folded(parent, rule, child).dom() == parent.dom().insert(rule.key()),
        parent.dom().finite() ==> folded(parent, rule, child).dom().finite(),
{
}

/// Folding adds one entry where the parent had none under the element's key,
/// and none where it had one.
pub proof fn lemma_folded_count(parent: Entries, rule: ElementView, child: Entries)
    requires
        folded(parent, rule, child).dom().finite(),
    ensures
        parent.dom().finite(),
        folded(parent, rule, child).len() == parent.len() + if parent.contains_key(rule.key()) {
            0nat
        } else {
            1nat
        },
{
    lemma_folded_keys(parent, rule, child);
    vstd::set_lib::lemma_len_subset(parent.dom(), folded(parent, rule, child).dom());
    if parent.contains_key(rule.key()) {
        assert(parent.dom().insert(rule.key()) =~= parent.dom());
    }
}

/// Folds the freshly matched `parsed_value` into `parsed_message` under the
/// key of `definition`: its segment code, or else its loop name.
pub fn build_message(definition: &SchemaElement, parsed_value: Node, parsed_message: &mut Node)
    ensures
        object_entries(*final(parsed_message)) == folded(
            object_entries(*old(parsed_message)),
            definition@,
            object_entries(parsed_value),
        ),
        object_entries(*final(parsed_message)).dom().finite(),
        object_entries(*final(parsed_message)).len() == object_entries(*old(parsed_message)).len()
            + if object_entries(*old(parsed_message)).contains_key(definition@.key()) {
            0nat
        } else {
            1nat
        },
{
    let name = if definition.segment.as_str().is_empty() {
        &definition.loop_name
    } else {
        &definition.segment
    };
    let item = object_value(parsed_value);
    if definition.max == 1 {
        object_insert(parsed_message, name.clone(), item);
    } else {
        let holds_list = match object_get(parsed_message, name.as_str()) {
            Some(value) => value_is_array(value),
            None => false,
        };
        if holds_list {
            let slot = object_get_mut(parsed_message, name.as_str()).unwrap();
            let items = value_as_array_mut(slot).unwrap();
            let ghost before = items@;
            items.push(item);
            assert(trees_of(items@) =~= trees_of(before).push(value_tree(item)));
        } else {
            let mut items: Vec<serde_json::Value> = Vec::new();
            items.push(item);
            assert(trees_of(items@) =~= seq![value_tree(item)]);
            object_insert(parsed_message, name.clone(), list_value(items));
        }
    }
    proof {
        lemma_folded_count(
            object_entries(*old(parsed_message)),
            definition@,
            object_entries(parsed_value),
        );
    }
}

} // verus!
