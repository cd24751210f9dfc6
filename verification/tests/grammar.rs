use x12_rust::{
    default_bool, default_max, default_val, ElementKind, SchemaElement, SchemaLoop, SchemaMessage,
};

#[test]
fn defaults_are_empty_false_and_zero() {
    assert_eq!(default_val(), "");
    assert_eq!(default_bool(), false);
    assert_eq!(default_max(), 0);
}

#[test]
fn default_element_has_every_field_at_its_default() {
    let element = SchemaElement::default();
    assert_eq!(element.segment, "");
    assert_eq!(element.loop_name, "");
    assert_eq!(element.description, "");
    assert_eq!(element.level, "");
    assert_eq!(element.max, 0);
    assert!(!element.required);
    assert_eq!(element.kind(), None);
}

#[test]
fn kind_tells_segment_from_loop() {
    let segment = SchemaElement { segment: "N1".to_string(), ..SchemaElement::default() };
    assert_eq!(segment.kind(), Some(ElementKind::Segment));
    let looped = SchemaElement { loop_name: "2000A".to_string(), ..SchemaElement::default() };
    assert_eq!(looped.kind(), Some(ElementKind::Loop));
    let both = SchemaElement {
        segment: "N1".to_string(),
        loop_name: "2000A".to_string(),
        ..SchemaElement::default()
    };
    assert_eq!(both.kind(), None);
}

#[test]
fn kind_ignores_the_other_fields() {
    let element = SchemaElement {
        segment: "HL".to_string(),
        required: true,
        max: 3,
        description: "level".to_string(),
        level: "20".to_string(),
        ..SchemaElement::default()
    };
    assert_eq!(element.kind(), Some(ElementKind::Segment));
}

#[test]
fn grammar_gives_each_loop_by_name() {
    let mut grammar = SchemaMessage::new();
    grammar.insert(
        "root".to_string(),
        SchemaLoop {
            elements: vec![
                SchemaElement { segment: "ST".to_string(), max: 1, ..SchemaElement::default() },
                SchemaElement { loop_name: "LOOP1".to_string(), ..SchemaElement::default() },
            ],
        },
    );
    grammar.insert("LOOP1".to_string(), SchemaLoop { elements: vec![] });

    assert_eq!(grammar.len(), 2);
    let root = grammar.get("root").unwrap();
    assert_eq!(root.elements.len(), 2);
    assert_eq!(root.elements[0].segment, "ST");
    assert_eq!(root.elements[1].loop_name, "LOOP1");
    assert!(grammar.get("LOOP1").unwrap().elements.is_empty());
    assert!(grammar.get("LOOP2").is_none());
}
