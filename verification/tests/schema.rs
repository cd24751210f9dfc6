use x12_rust::{schema_name_for_msg, X12Error};

fn message(segments: &[&[&str]]) -> Vec<Vec<String>> {
    let mut out = Vec::new();
    for fields in segments {
        let mut segment = Vec::new();
        for field in fields.iter() {
            segment.push(field.to_string());
        }
        out.push(segment);
    }
    out
}

#[test]
fn transaction_set_names_the_grammar() {
    let segments = message(&[&["ISA"], &["GS"], &["ST", "850", "0001"]]);
    assert_eq!(schema_name_for_msg(&segments), Ok("850".to_string()));
}

#[test]
fn transaction_set_needs_no_further_field() {
    let segments = message(&[&["ISA"], &["GS"], &["ST", "270"]]);
    assert_eq!(schema_name_for_msg(&segments), Ok("270".to_string()));
}

#[test]
fn claim_with_the_guide_reference_is_837i() {
    let segments = message(&[&["ISA"], &["GS"], &["ST", "837", "0001", "005010X223A2"]]);
    assert_eq!(schema_name_for_msg(&segments), Ok("837i".to_string()));
    let segments = message(&[&["ISA"], &["GS"], &["ST", "837", "0001", "xx005010X22"]]);
    assert_eq!(schema_name_for_msg(&segments), Ok("837i".to_string()));
}

#[test]
fn claim_without_the_guide_reference_is_837p() {
    let segments = message(&[&["ISA"], &["GS"], &["ST", "837", "0001", "004010X098A1"]]);
    assert_eq!(schema_name_for_msg(&segments), Ok("837p".to_string()));
    let segments = message(&[&["ISA"], &["GS"], &["ST", "837", "0001", ""]]);
    assert_eq!(schema_name_for_msg(&segments), Ok("837p".to_string()));
    let segments = message(&[&["ISA"], &["GS"], &["ST", "837", "0001", "005010X2"]]);
    assert_eq!(schema_name_for_msg(&segments), Ok("837p".to_string()));
}

#[test]
fn fewer_than_three_segments_have_no_header() {
    assert_eq!(schema_name_for_msg(&message(&[])), Err(X12Error::MissingHeader));
    assert_eq!(
        schema_name_for_msg(&message(&[&["ST", "837"], &["ST", "837"]])),
        Err(X12Error::MissingHeader)
    );
}

#[test]
fn third_segment_must_be_st() {
    let segments = message(&[&["ISA"], &["ST", "837"], &["GS", "837"]]);
    assert_eq!(schema_name_for_msg(&segments), Err(X12Error::MissingHeader));
    let segments = message(&[&["ISA"], &["GS"], &[]]);
    assert_eq!(schema_name_for_msg(&segments), Err(X12Error::MissingHeader));
    let segments = message(&[&["ISA"], &["GS"], &["st", "837"]]);
    assert_eq!(schema_name_for_msg(&segments), Err(X12Error::MissingHeader));
}

#[test]
fn header_without_the_fields_to_read_is_malformed() {
    let segments = message(&[&["ISA"], &["GS"], &["ST"]]);
    assert_eq!(schema_name_for_msg(&segments), Err(X12Error::MalformedSegment { index: 2 }));
    let segments = message(&[&["ISA"], &["GS"], &["ST", "837", "0001"]]);
    assert_eq!(schema_name_for_msg(&segments), Err(X12Error::MalformedSegment { index: 2 }));
}

fn collection_of(names: &[&str]) -> x12_rust::SchemaCollection {
    let mut collection = x12_rust::SchemaCollection::new();
    for name in names {
        let mut grammar = x12_rust::SchemaMessage::new();
        grammar.insert(
            "root".to_string(),
            x12_rust::SchemaLoop {
                elements: vec![x12_rust::SchemaElement {
                    segment: "ST".to_string(),
                    description: name.to_string(),
                    ..x12_rust::SchemaElement::default()
                }],
            },
        );
        collection.insert(name.to_string(), grammar);
    }
    collection
}

fn marker(grammar: &x12_rust::SchemaMessage) -> String {
    grammar.get("root").unwrap().elements[0].description.clone()
}

#[test]
fn grammar_is_found_by_name() {
    let collection = collection_of(&["837i", "837p", "850"]);
    assert_eq!(marker(x12_rust::get_msg_schema(&collection, "837p").unwrap()), "837p");
    assert_eq!(marker(x12_rust::get_msg_schema(&collection, "850").unwrap()), "850");
}

#[test]
fn name_without_a_grammar_is_unrecognized() {
    let collection = collection_of(&["837i", "837p"]);
    match x12_rust::get_msg_schema(&collection, "999") {
        Err(error) => {
            assert_eq!(error, X12Error::UnrecognizedMessageType { name: "999".to_string() })
        }
        Ok(_) => panic!("a grammar was found"),
    }
}

#[test]
fn header_selects_the_grammar() {
    let collection = collection_of(&["837i", "837p", "850"]);
    let claim = message(&[&["ISA"], &["GS"], &["ST", "837", "0001", "005010X222A1"]]);
    assert_eq!(marker(x12_rust::get_schema_for_msg(&claim, &collection).unwrap()), "837i");
    let other = message(&[&["ISA"], &["GS"], &["ST", "837", "0001", "004010X098"]]);
    assert_eq!(marker(x12_rust::get_schema_for_msg(&other, &collection).unwrap()), "837p");
    let order = message(&[&["ISA"], &["GS"], &["ST", "850"]]);
    assert_eq!(marker(x12_rust::get_schema_for_msg(&order, &collection).unwrap()), "850");
}

#[test]
fn header_fault_comes_before_the_lookup() {
    let collection = collection_of(&["850"]);
    let no_header = message(&[&["ISA"], &["GS"]]);
    match x12_rust::get_schema_for_msg(&no_header, &collection) {
        Err(error) => assert_eq!(error, X12Error::MissingHeader),
        Ok(_) => panic!("a grammar was found"),
    }
    let unknown = message(&[&["ISA"], &["GS"], &["ST", "270"]]);
    match x12_rust::get_schema_for_msg(&unknown, &collection) {
        Err(error) => {
            assert_eq!(error, X12Error::UnrecognizedMessageType { name: "270".to_string() })
        }
        Ok(_) => panic!("a grammar was found"),
    }
}

fn element(segment: &str, loop_name: &str, max: i32) -> x12_rust::SchemaElement {
    x12_rust::SchemaElement {
        segment: segment.to_string(),
        loop_name: loop_name.to_string(),
        max,
        required: true,
        description: "kept".to_string(),
        level: "20".to_string(),
    }
}

#[test]
fn root_is_taken_out_with_all_its_elements() {
    let mut grammar = x12_rust::SchemaMessage::new();
    grammar.insert(
        "root".to_string(),
        x12_rust::SchemaLoop { elements: vec![element("ST", "", 1), element("", "LOOP1", 0)] },
    );
    grammar.insert("LOOP1".to_string(), x12_rust::SchemaLoop { elements: vec![] });

    let root = x12_rust::take_root(&mut grammar).unwrap();

    assert_eq!(root.len(), 2);
    assert_eq!(root[0].segment, "ST");
    assert_eq!(root[0].loop_name, "");
    assert_eq!(root[0].max, 1);
    assert!(root[0].required);
    assert_eq!(root[0].description, "kept");
    assert_eq!(root[0].level, "20");
    assert_eq!(root[1].segment, "");
    assert_eq!(root[1].loop_name, "LOOP1");
    assert_eq!(root[1].max, 0);
    assert_eq!(grammar.len(), 1);
    assert!(grammar.get("root").is_none());
    assert!(grammar.get("LOOP1").is_some());
}

#[test]
fn root_is_taken_only_once() {
    let mut grammar = x12_rust::SchemaMessage::new();
    grammar.insert("root".to_string(), x12_rust::SchemaLoop { elements: vec![] });
    assert_eq!(x12_rust::take_root(&mut grammar).unwrap().len(), 0);
    match x12_rust::take_root(&mut grammar) {
        Err(error) => assert_eq!(error, X12Error::MissingRoot),
        Ok(_) => panic!("a root was found"),
    }
}

#[test]
fn grammar_without_root_is_reported_and_left_as_it_is() {
    let mut grammar = x12_rust::SchemaMessage::new();
    grammar.insert("LOOP1".to_string(), x12_rust::SchemaLoop { elements: vec![] });
    match x12_rust::take_root(&mut grammar) {
        Err(error) => assert_eq!(error, X12Error::MissingRoot),
        Ok(_) => panic!("a root was found"),
    }
    assert_eq!(grammar.len(), 1);
    assert!(grammar.get("LOOP1").is_some());
}

#[test]
fn loop_element_that_names_root_finds_no_loop_once_root_is_taken() {
    let mut grammar = x12_rust::SchemaMessage::new();
    grammar.insert(
        "root".to_string(),
        x12_rust::SchemaLoop {
            elements: vec![
                x12_rust::SchemaElement {
                    segment: "ST".to_string(),
                    max: 1,
                    ..x12_rust::SchemaElement::default()
                },
                x12_rust::SchemaElement {
                    loop_name: "root".to_string(),
                    ..x12_rust::SchemaElement::default()
                },
            ],
        },
    );
    let root = x12_rust::take_root(&mut grammar).unwrap();
    let segments = message(&[&["ST", "850"], &["ST", "850"]]);

    assert_eq!(
        x12_rust::parse_message(&segments, &root, &grammar, 0),
        Err(X12Error::UnknownLoop { name: "root".to_string() })
    );
}

#[test]
fn message_text_goes_through_to_the_tree() {
    let mut grammar = x12_rust::SchemaMessage::new();
    grammar.insert(
        "root".to_string(),
        x12_rust::SchemaLoop {
            elements: vec![
                x12_rust::SchemaElement {
                    segment: "ISA".to_string(),
                    max: 1,
                    ..x12_rust::SchemaElement::default()
                },
                x12_rust::SchemaElement {
                    segment: "GS".to_string(),
                    max: 1,
                    ..x12_rust::SchemaElement::default()
                },
                x12_rust::SchemaElement {
                    segment: "ST".to_string(),
                    max: 1,
                    ..x12_rust::SchemaElement::default()
                },
                x12_rust::SchemaElement {
                    loop_name: "2000".to_string(),
                    ..x12_rust::SchemaElement::default()
                },
                x12_rust::SchemaElement {
                    segment: "SE".to_string(),
                    max: 1,
                    ..x12_rust::SchemaElement::default()
                },
            ],
        },
    );
    grammar.insert(
        "2000".to_string(),
        x12_rust::SchemaLoop {
            elements: vec![
                x12_rust::SchemaElement {
                    segment: "HL".to_string(),
                    level: "20".to_string(),
                    max: 1,
                    ..x12_rust::SchemaElement::default()
                },
                x12_rust::SchemaElement {
                    segment: "NM1".to_string(),
                    ..x12_rust::SchemaElement::default()
                },
            ],
        },
    );
    let root = x12_rust::take_root(&mut grammar).unwrap();
    let mut collection = x12_rust::SchemaCollection::new();
    collection.insert("837i".to_string(), grammar);

    let text = "ISA*00~\nGS*HC~\nST*837*0001*005010X223A2~\nHL*1**20*1~\nNM1*41*2~\nNM1*40*2~\nHL*2*1*20*0~\nNM1*85~\nSE*8*0001~\n";
    let segments = x12_rust::prepare_segments(text);
    let all_loops = x12_rust::get_schema_for_msg(&segments, &collection).unwrap();
    let (tree, next) = x12_rust::parse_message(&segments, &root, all_loops, 0).unwrap();

    let expected: serde_json::Value = serde_json::from_str(
        r#"{
            "ISA": {"1": "00"},
            "GS": {"1": "HC"},
            "ST": {"1": "837", "2": "0001", "3": "005010X223A2"},
            "2000": [
                {"HL": {"1": "1", "2": "", "3": "20", "4": "1"},
                 "NM1": [{"1": "41", "2": "2"}, {"1": "40", "2": "2"}]},
                {"HL": {"1": "2", "2": "1", "3": "20", "4": "0"},
                 "NM1": [{"1": "85"}]}
            ],
            "SE": {"1": "8", "2": "0001"}
        }"#,
    )
    .unwrap();
    assert_eq!(serde_json::Value::Object(tree), expected);
    assert_eq!(next, 9);
    assert_eq!(segments.len(), 10);
}
