use xsd::grammar::{parse_max_occurences, parse_min_occurences, parse_qualification, parse_required};
use xsd::text::parse_unsigned;
use xsd::tree::Event;
use xsd::{
    parse_schema, parse_schema_events, ContentModel, Derivation, MaxOccurences, Qualification,
    Required, Schema, SchemaError,
};

const XS: &str = "http://www.w3.org/2001/XMLSchema";

fn wrap(body: &str) -> String {
    format!(
        "<?xml version=\"1.0\" encoding=\"UTF-8\"?>\n<xs:schema xmlns:xs=\"{}\">{}</xs:schema>",
        XS, body
    )
}

#[test]
fn test_schema_basic() {
    let content = r#"<?xml version="1.0" encoding="UTF-8"?>
<xs:schema xmlns:xs="http://www.w3.org/2001/XMLSchema" elementFormDefault="qualified" attributeFormDefault="unqualified">
</xs:schema>"#;
    let schema = parse_schema(content).unwrap();
    assert_eq!(
        schema,
        Schema {
            target_namespace: None,
            element_form_default: Qualification::Qualidified,
            attribute_form_default: Qualification::Unqualified,
            ..Default::default()
        }
    );
}

#[test]
fn test_schema_annotation() {
    let content = r#"<?xml version="1.0" encoding="UTF-8"?>
<xs:schema xmlns:xs="http://www.w3.org/2001/XMLSchema">
        <xs:annotation><xs:documentation>doc</xs:documentation></xs:annotation>
</xs:schema>"#;
    let schema = parse_schema(content).unwrap();
    assert_eq!(schema.annotation.unwrap().documentation, vec!["doc"]);
}

#[test]
fn minimal_schema_is_all_defaults() {
    let content = format!("<xs:schema xmlns:xs=\"{}\"/>", XS);
    let schema = parse_schema(&content).unwrap();
    assert_eq!(schema, Schema::default());
    assert_eq!(schema.element_form_default, Qualification::Unqualified);
    assert_eq!(schema.attribute_form_default, Qualification::Unqualified);
    assert!(schema.imports.is_empty() && schema.elements.is_empty() && schema.annotation.is_none());
}

#[test]
fn cardinality_literals() {
    assert_eq!(parse_max_occurences("unbounded").unwrap(), MaxOccurences::Unbounded);
    assert_eq!(parse_max_occurences("0").unwrap(), MaxOccurences::Number { value: 0 });
    assert_eq!(parse_max_occurences("17").unwrap(), MaxOccurences::Number { value: 17 });
    assert_eq!(
        parse_max_occurences("4294967295").unwrap(),
        MaxOccurences::Number { value: 4294967295 }
    );
    assert_eq!(parse_max_occurences("+5").unwrap(), MaxOccurences::Number { value: 5 });
}

#[test]
fn malformed_cardinality_literals() {
    for bad in ["4294967296", "", "-1", " 3", "3 ", "Unbounded", "+", "1x"] {
        match parse_max_occurences(bad) {
            Err(SchemaError::MalformedScalar { value }) => assert_eq!(value, bad),
            other => panic!("{:?} gave {:?}", bad, other),
        }
    }
}

#[test]
fn min_occurs_literals() {
    assert_eq!(parse_min_occurences("18446744073709551615").unwrap(), u64::MAX);
    assert!(matches!(
        parse_min_occurences("18446744073709551616"),
        Err(SchemaError::MalformedScalar { .. })
    ));
    assert_eq!(parse_unsigned("250", 255), Some(250));
    assert_eq!(parse_unsigned("256", 255), None);
}

#[test]
fn usage_literals() {
    assert_eq!(parse_required("optional").unwrap(), Required::Optional);
    assert_eq!(parse_required("required").unwrap(), Required::Required);
    for bad in ["mandatory", "Required", "", "prohibited"] {
        match parse_required(bad) {
            Err(SchemaError::UnrecognizedEnumValue { value }) => assert_eq!(value, bad),
            other => panic!("{:?} gave {:?}", bad, other),
        }
    }
    assert_eq!(Required::default(), Required::Optional);
}

#[test]
fn qualification_literals() {
    assert_eq!(parse_qualification("qualified").unwrap(), Qualification::Qualidified);
    assert_eq!(parse_qualification("unqualified").unwrap(), Qualification::Unqualified);
    assert!(matches!(
        parse_qualification("Qualified"),
        Err(SchemaError::UnrecognizedEnumValue { .. })
    ));
    assert_eq!(MaxOccurences::default(), MaxOccurences::Unbounded);
}

#[test]
fn sequence_keeps_document_order() {
    let content = wrap(
        r#"<xs:complexType name="T"><xs:sequence>
            <xs:element name="b" type="xs:string"/>
            <xs:element name="a" minOccurs="0" maxOccurs="unbounded"/>
            <xs:element name="b" type="xs:string"/>
            <xs:element name="c" ref="tns:c" maxOccurs="3"/>
        </xs:sequence></xs:complexType>"#,
    );
    let schema = parse_schema(&content).unwrap();
    let t = &schema.complex_type[0];
    assert_eq!(t.name, "T");
    let seq = match &t.content {
        Some(ContentModel::Sequence(s)) => s,
        other => panic!("{:?}", other),
    };
    let names: Vec<&str> = seq.elements.iter().map(|e| e.name.as_str()).collect();
    assert_eq!(names, vec!["b", "a", "b", "c"]);
    assert_eq!(seq.elements[0].kind.as_deref(), Some("xs:string"));
    assert_eq!(seq.elements[1].min_occurences, Some(0));
    assert_eq!(seq.elements[1].max_occurences, Some(MaxOccurences::Unbounded));
    assert_eq!(seq.elements[3].refers.as_deref(), Some("tns:c"));
    assert_eq!(seq.elements[3].max_occurences, Some(MaxOccurences::Number { value: 3 }));
}

#[test]
fn complex_type_without_name_fails() {
    let content = wrap("<xs:complexType><xs:sequence/></xs:complexType>");
    match parse_schema(&content) {
        Err(SchemaError::MissingRequiredField { element, field }) => {
            assert_eq!(field, "name");
            assert_eq!(element, "complexType");
        }
        other => panic!("{:?}", other),
    }
}

#[test]
fn extension_without_base_fails() {
    let content = wrap(
        "<xs:complexType name=\"T\"><xs:complexContent><xs:extension/></xs:complexContent></xs:complexType>",
    );
    match parse_schema(&content) {
        Err(SchemaError::MissingRequiredField { field, .. }) => assert_eq!(field, "base"),
        other => panic!("{:?}", other),
    }
}

#[test]
fn parsing_twice_gives_equal_trees() {
    let content = wrap(
        r#"<xs:import namespace="urn:a" schemaLocation="a.xsd"/>
        <xs:include schemaLocation="b.xsd"/>
        <xs:element name="root"><xs:complexType name="R">
            <xs:attribute name="id" type="xs:ID" use="required"/>
            <xs:simpleContent><xs:extension base="xs:string"/></xs:simpleContent>
        </xs:complexType></xs:element>
        <xs:simpleType name="S"><xs:list itemType="xs:int"/></xs:simpleType>
        <xs:attributeGroup name="G"><xs:attribute ref="x"/></xs:attributeGroup>"#,
    );
    let first = parse_schema(&content).unwrap();
    let second = parse_schema(&content).unwrap();
    assert_eq!(first, second);
    assert_eq!(first.imports[0].namespace.as_deref(), Some("urn:a"));
    assert_eq!(first.includes[0].schema_location.as_deref(), Some("b.xsd"));
    assert_eq!(first.attribute_group[0].reference, "");
    let t = first.elements[0].complex_type.as_ref().unwrap();
    assert_eq!(t.attributes[0].required, Required::Required);
    match &t.content {
        Some(ContentModel::SimpleContent(sc)) => assert_eq!(sc.extension.base, "xs:string"),
        other => panic!("{:?}", other),
    }
    match &first.simple_type[0].derivation {
        Some(Derivation::List(l)) => assert_eq!(l.item_type, "xs:int"),
        other => panic!("{:?}", other),
    }
}

#[test]
fn unknown_children_and_attributes_are_ignored() {
    let content = wrap(
        r#"<xs:notation name="n" public="p"/><other xmlns="urn:x"><xs:element name="hidden"/></other>
        <element name="wrong-namespace"/>
        <xs:element name="e" color="blue"/>"#,
    );
    let schema = parse_schema(&content).unwrap();
    assert_eq!(schema.elements.len(), 1);
    assert_eq!(schema.elements[0].name, "e");
}

#[test]
fn bad_usage_in_document_fails() {
    let content = wrap("<xs:attribute name=\"a\" use=\"mandatory\"/>");
    match parse_schema(&content) {
        Err(SchemaError::UnrecognizedEnumValue { value }) => assert_eq!(value, "mandatory"),
        other => panic!("{:?}", other),
    }
}

#[test]
fn root_must_be_schema() {
    let content = format!("<xs:element xmlns:xs=\"{}\" name=\"a\"/>", XS);
    assert!(matches!(parse_schema(&content), Err(SchemaError::UnexpectedStructure { .. })));
    assert!(matches!(parse_schema("<schema/>"), Err(SchemaError::UnexpectedStructure { .. })));
    assert!(matches!(parse_schema("<a><b></a>"), Err(SchemaError::MalformedXml { .. })));
}

#[test]
fn events_without_elements_fail() {
    let ev = vec![Event::Other, Event::Text("x".to_string())];
    assert!(matches!(parse_schema_events(&ev), Err(SchemaError::UnexpectedStructure { .. })));
    let unclosed = vec![Event::Start {
        name: "schema".to_string(),
        namespace: Some(XS.to_string()),
        attributes: vec![("targetNamespace".to_string(), "urn:t".to_string())],
    }];
    assert!(matches!(parse_schema_events(&unclosed), Err(SchemaError::UnexpectedStructure { .. })));
    let closed = vec![
        Event::Start {
            name: "schema".to_string(),
            namespace: Some(XS.to_string()),
            attributes: vec![("targetNamespace".to_string(), "urn:t".to_string())],
        },
        Event::End,
    ];
    let s = parse_schema_events(&closed).unwrap();
    assert_eq!(s.target_namespace.as_deref(), Some("urn:t"));
}

fn start(name: &str) -> Event {
    Event::Start { name: name.to_string(), namespace: Some(XS.to_string()), attributes: vec![] }
}

#[test]
fn read_element_builds_the_tree() {
    let ev = vec![
        Event::Other,
        start("annotation"),
        Event::Text("a".to_string()),
        start("documentation"),
        Event::Text("inner".to_string()),
        Event::End,
        Event::Other,
        Event::Text("b".to_string()),
        Event::End,
        Event::Text("after".to_string()),
    ];
    let (node, next) = xsd::tree::read_element(&ev, 1).unwrap();
    assert_eq!(next, 9);
    assert_eq!(node.name, "annotation");
    assert_eq!(node.text, "ab");
    assert_eq!(node.children.len(), 1);
    assert_eq!(node.children[0].name, "documentation");
    assert_eq!(node.children[0].text, "inner");
    let annotation = xsd::dispatch::parse_annotation(&node).unwrap();
    assert_eq!(annotation.documentation, vec!["inner"]);
}

#[test]
fn same_text_compares_characters() {
    assert!(xsd::text::same_text("schéma", "schéma"));
    assert!(!xsd::text::same_text("schema", "schemas"));
    assert!(!xsd::text::same_text("list", "lust"));
    assert!(xsd::text::same_text("", ""));
}

#[test]
fn singular_field_takes_the_last_child_and_every_one_must_parse() {
    let content = wrap(
        r#"<xs:element name="e">
            <xs:simpleType name="first"><xs:restriction base="xs:int"/></xs:simpleType>
            <xs:simpleType name="second"><xs:union memberTypes="a b"/></xs:simpleType>
        </xs:element>"#,
    );
    let schema = parse_schema(&content).unwrap();
    let st = schema.elements[0].simple_type.as_ref().unwrap();
    assert_eq!(st.name, "second");
    match &st.derivation {
        Some(Derivation::Union(u)) => assert_eq!(u.member_types, "a b"),
        other => panic!("{:?}", other),
    }
    let bad = wrap(
        r#"<xs:element name="e">
            <xs:simpleType><xs:restriction base="xs:int"/></xs:simpleType>
            <xs:simpleType name="second"/>
        </xs:element>"#,
    );
    match parse_schema(&bad) {
        Err(SchemaError::MissingRequiredField { element, field }) => {
            assert_eq!(element, "simpleType");
            assert_eq!(field, "name");
        }
        other => panic!("{:?}", other),
    }
}

#[test]
fn simple_content_needs_an_extension() {
    let content = wrap("<xs:complexType name=\"T\"><xs:simpleContent/></xs:complexType>");
    match parse_schema(&content) {
        Err(SchemaError::MissingRequiredField { element, field }) => {
            assert_eq!(element, "simpleContent");
            assert_eq!(field, "extension");
        }
        other => panic!("{:?}", other),
    }
}

#[test]
fn element_without_name_fails() {
    let content = wrap("<xs:element ref=\"tns:c\"/>");
    match parse_schema(&content) {
        Err(SchemaError::MissingRequiredField { element, field }) => {
            assert_eq!(element, "element");
            assert_eq!(field, "name");
        }
        other => panic!("{:?}", other),
    }
}

#[test]
fn form_defaults_are_independent() {
    let content = format!("<xs:schema xmlns:xs=\"{}\" elementFormDefault=\"qualified\"/>", XS);
    let schema = parse_schema(&content).unwrap();
    assert_eq!(schema.element_form_default, Qualification::Qualidified);
    assert_eq!(schema.attribute_form_default, Qualification::Unqualified);
    let bad = format!("<xs:schema xmlns:xs=\"{}\" elementFormDefault=\"yes\"/>", XS);
    match parse_schema(&bad) {
        Err(SchemaError::UnrecognizedEnumValue { value }) => assert_eq!(value, "yes"),
        other => panic!("{:?}", other),
    }
}

#[test]
fn nested_defects_fail_the_whole_document() {
    let content = wrap(
        r#"<xs:element name="outer"><xs:complexType name="O"><xs:sequence>
            <xs:element name="inner" maxOccurs="many"/>
        </xs:sequence></xs:complexType></xs:element>"#,
    );
    match parse_schema(&content) {
        Err(SchemaError::MalformedScalar { value }) => assert_eq!(value, "many"),
        other => panic!("{:?}", other),
    }
    let content = wrap(
        r#"<xs:element name="outer"><xs:complexType name="O"><xs:sequence>
            <xs:element name="inner"><xs:complexType/></xs:element>
        </xs:sequence></xs:complexType></xs:element>"#,
    );
    match parse_schema(&content) {
        Err(SchemaError::MissingRequiredField { element, field }) => {
            assert_eq!(element, "complexType");
            assert_eq!(field, "name");
        }
        other => panic!("{:?}", other),
    }
}

#[test]
fn whitespace_documentation_is_kept() {
    let content = wrap("<xs:annotation><xs:documentation>  </xs:documentation></xs:annotation>");
    let schema = parse_schema(&content).unwrap();
    assert_eq!(schema.annotation.unwrap().documentation, vec!["  "]);
}
