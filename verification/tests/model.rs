use control_model::xml::parse_document;

#[test]
fn xml_reads_a_root_and_rejects_malformed_input() {
    let ok = parse_document("<a><b x=\"1\"/></a>").expect("well-formed");
    assert_eq!(ok.name, "a");
    assert_eq!(ok.children.len(), 1);
    assert_eq!(ok.children[0].name, "b");
    assert_eq!(ok.children[0].attr_or("x", ""), "1");
    assert!(parse_document("<a>").is_err());
}

#[test]
fn xml_keeps_element_children_in_order_and_drops_text() {
    let doc = parse_document("<r>text<x/><!-- c --><y k=\"v\">more<z/></y>tail</r>").unwrap();
    assert_eq!(doc.name, "r");
    let names: Vec<&str> = doc.children.iter().map(|c| c.name.as_str()).collect();
    assert_eq!(names, vec!["x", "y"]);
    assert_eq!(doc.children[1].children.len(), 1);
    assert_eq!(doc.children[1].children[0].name, "z");
    assert_eq!(doc.children[1].attr("k"), Some("v".to_string()));
    assert_eq!(doc.children[1].attr("missing"), None);
}

#[test]
fn xml_root_is_the_root_element_after_a_prolog() {
    let doc = parse_document("<?xml version=\"1.0\"?><!-- lead --><robot name=\"r\"/>").unwrap();
    assert_eq!(doc.name, "robot");
    assert_eq!(doc.attr_or("name", "none"), "r");
    assert_eq!(doc.attr_or("absent", "none"), "none");
    assert!(doc.children.is_empty());
}

#[test]
fn xml_errors_carry_the_reader_prefix() {
    let e = parse_document("<a></b>").unwrap_err();
    assert!(e.starts_with("simu.xml: "), "{e}");
    assert!(e.len() > "simu.xml: ".len());
    assert!(parse_document("<a x=1/>").is_err());
    assert!(parse_document("").is_err());
}

#[test]
fn xml_names_are_local_names() {
    let doc = parse_document("<a xmlns:x=\"urn:x\"><x:b x:k=\"v\" k2=\"w\"/></a>").unwrap();
    assert_eq!(doc.children[0].name, "b");
    assert_eq!(doc.children[0].attr("k"), Some("v".to_string()));
    assert_eq!(doc.children[0].attr("k2"), Some("w".to_string()));
    // a namespace declaration is no attribute
    assert_eq!(doc.attr("xmlns:x"), None);
    assert!(doc.attrs.is_empty());
}

#[test]
fn xml_nodes_clone_compare_and_default() {
    let doc = parse_document("<a k=\"1\"><b><c/></b><d/></a>").unwrap();
    let copy = doc.clone();
    assert_eq!(copy, doc);
    assert_eq!(copy.children[0].children[0].name, "c");
    let mut other = doc.clone();
    other.children[1].name = "e".to_string();
    assert_ne!(other, doc);
    let empty = control_model::xml::XmlNode::default();
    assert!(empty.name.is_empty() && empty.attrs.is_empty() && empty.children.is_empty());
}

#[test]
fn xml_attributes_compare_as_a_table() {
    let a = parse_document("<a x=\"1\" y=\"2\"><b/></a>").unwrap();
    let b = parse_document("<a y=\"2\" x=\"1\"><b/></a>").unwrap();
    assert_eq!(a, b);
    let c = parse_document("<a x=\"1\" y=\"3\"><b/></a>").unwrap();
    assert_ne!(a, c);
    let d = parse_document("<a x=\"1\"><b/></a>").unwrap();
    assert_ne!(a, d);
    let e = parse_document("<a x=\"1\" y=\"2\"><b z=\"0\"/></a>").unwrap();
    assert_ne!(a, e);
}
