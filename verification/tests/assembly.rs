use serde_json::Value;
use x12_rust::{build_message, make_segment, Node, SchemaElement};

fn fields_of(fields: &[&str]) -> Vec<String> {
    let mut out = Vec::new();
    for field in fields {
        out.push(field.to_string());
    }
    out
}

fn node_of(entries: Vec<(&str, Value)>) -> Node {
    let mut node = Node::new();
    for (key, value) in entries {
        node.insert(key.to_string(), value);
    }
    node
}

fn text(value: &str) -> Value {
    Value::String(value.to_string())
}

fn segment_element(code: &str, max: i32) -> SchemaElement {
    SchemaElement { segment: code.to_string(), max, ..SchemaElement::default() }
}

fn loop_element(name: &str, max: i32) -> SchemaElement {
    SchemaElement { loop_name: name.to_string(), max, ..SchemaElement::default() }
}

#[test]
fn leaf_drops_the_code_and_numbers_the_fields_from_one() {
    let leaf = make_segment(fields_of(&["N1", "IL", "JOHN"]));
    assert_eq!(leaf, node_of(vec![("1", text("IL")), ("2", text("JOHN"))]));
}

#[test]
fn leaf_keeps_empty_fields_as_empty_strings() {
    let leaf = make_segment(fields_of(&["N1", "", "X", "", ""]));
    assert_eq!(
        leaf,
        node_of(vec![("1", text("")), ("2", text("X")), ("3", text("")), ("4", text(""))])
    );
}

#[test]
fn leaf_of_a_code_alone_or_of_nothing_is_empty() {
    assert_eq!(make_segment(fields_of(&["SE"])), Node::new());
    assert_eq!(make_segment(Vec::new()), Node::new());
}

#[test]
fn leaf_keys_are_decimal_numerals() {
    let leaf =
        make_segment(fields_of(&["X", "a", "b", "c", "d", "e", "f", "g", "h", "i", "j", "k", "l"]));
    assert_eq!(leaf.len(), 12);
    assert_eq!(leaf.get("1"), Some(&text("a")));
    assert_eq!(leaf.get("9"), Some(&text("i")));
    assert_eq!(leaf.get("10"), Some(&text("j")));
    assert_eq!(leaf.get("11"), Some(&text("k")));
    assert_eq!(leaf.get("12"), Some(&text("l")));
    assert_eq!(leaf.get("0"), None);
    assert_eq!(leaf.get("13"), None);
}

#[test]
fn singular_element_inserts_an_object() {
    let mut parent = Node::new();
    build_message(&segment_element("N1", 1), node_of(vec![("1", text("a"))]), &mut parent);
    assert_eq!(parent, node_of(vec![("N1", Value::Object(node_of(vec![("1", text("a"))])))]));
}

#[test]
fn singular_element_overwrites_what_was_there() {
    let mut parent = node_of(vec![("N1", text("old")), ("N2", text("kept"))]);
    build_message(&segment_element("N1", 1), node_of(vec![("1", text("new"))]), &mut parent);
    assert_eq!(
        parent,
        node_of(vec![
            ("N1", Value::Object(node_of(vec![("1", text("new"))]))),
            ("N2", text("kept")),
        ])
    );
}

#[test]
fn repeatable_element_starts_a_list_of_one() {
    let mut parent = Node::new();
    build_message(&segment_element("N2", 0), node_of(vec![("1", text("a"))]), &mut parent);
    assert_eq!(
        parent,
        node_of(vec![("N2", Value::Array(vec![Value::Object(node_of(vec![("1", text("a"))]))]))])
    );
}

#[test]
fn repeatable_element_appends_in_order() {
    let mut parent = Node::new();
    let element = segment_element("N2", 0);
    build_message(&element, node_of(vec![("1", text("a"))]), &mut parent);
    build_message(&element, node_of(vec![("1", text("b"))]), &mut parent);
    build_message(&element, node_of(vec![("1", text("c"))]), &mut parent);
    assert_eq!(
        parent,
        node_of(vec![(
            "N2",
            Value::Array(vec![
                Value::Object(node_of(vec![("1", text("a"))])),
                Value::Object(node_of(vec![("1", text("b"))])),
                Value::Object(node_of(vec![("1", text("c"))])),
            ])
        )])
    );
}

#[test]
fn repeatable_element_appends_to_a_list_it_did_not_make() {
    let mut parent = node_of(vec![("N2", Value::Array(vec![text("x"), Value::Null]))]);
    build_message(&segment_element("N2", 7), Node::new(), &mut parent);
    assert_eq!(
        parent,
        node_of(vec![("N2", Value::Array(vec![text("x"), Value::Null, Value::Object(Node::new())]))])
    );
}

#[test]
fn repeatable_element_replaces_what_is_no_list() {
    let mut parent = node_of(vec![("N2", Value::Object(node_of(vec![("1", text("old"))])))]);
    build_message(&segment_element("N2", 0), node_of(vec![("1", text("new"))]), &mut parent);
    assert_eq!(
        parent,
        node_of(vec![("N2", Value::Array(vec![Value::Object(node_of(vec![("1", text("new"))]))]))])
    );
}

#[test]
fn loop_element_is_stored_under_its_name() {
    let mut parent = Node::new();
    build_message(&loop_element("LOOP1", 1), node_of(vec![("N1", text("a"))]), &mut parent);
    build_message(&loop_element("LOOP2", 0), node_of(vec![("N1", text("b"))]), &mut parent);
    assert_eq!(
        parent,
        node_of(vec![
            ("LOOP1", Value::Object(node_of(vec![("N1", text("a"))]))),
            ("LOOP2", Value::Array(vec![Value::Object(node_of(vec![("N1", text("b"))]))])),
        ])
    );
}

#[test]
fn segment_code_comes_before_loop_name_as_key() {
    let mut both = segment_element("N1", 1);
    both.loop_name = "LOOP1".to_string();
    let mut parent = Node::new();
    build_message(&both, Node::new(), &mut parent);
    assert_eq!(parent, node_of(vec![("N1", Value::Object(Node::new()))]));
}

#[test]
fn other_entries_of_the_parent_are_untouched() {
    let mut parent = node_of(vec![("A", text("a")), ("B", Value::Array(vec![text("b")]))]);
    build_message(&segment_element("C", 0), Node::new(), &mut parent);
    assert_eq!(
        parent,
        node_of(vec![
            ("A", text("a")),
            ("B", Value::Array(vec![text("b")])),
            ("C", Value::Array(vec![Value::Object(Node::new())])),
        ])
    );
}

#[test]
fn folding_adds_one_entry_for_a_new_key_and_none_for_a_key_held() {
    let mut parent = Node::new();
    build_message(&segment_element("N1", 1), Node::new(), &mut parent);
    assert_eq!(parent.len(), 1);
    build_message(&segment_element("N1", 1), Node::new(), &mut parent);
    assert_eq!(parent.len(), 1);
    build_message(&segment_element("N2", 0), Node::new(), &mut parent);
    assert_eq!(parent.len(), 2);
    build_message(&segment_element("N2", 0), Node::new(), &mut parent);
    assert_eq!(parent.len(), 2);
    build_message(&segment_element("N1", 0), Node::new(), &mut parent);
    assert_eq!(parent.len(), 2);
    build_message(&loop_element("LOOP1", 3), Node::new(), &mut parent);
    assert_eq!(parent.len(), 3);
}
