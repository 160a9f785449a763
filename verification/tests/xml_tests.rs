use markov_junior::xml::{apply_event, build_document, parse_xml, read_error_message, XmlEvent, XmlReadError};

fn s(t: &str) -> String {
    t.to_string()
}

#[test]
fn document_is_built_from_its_tokens() {
    let events = vec![
        Ok(XmlEvent::Other),
        Ok(XmlEvent::Start(s("a"), vec![(s("k"), s("v"))])),
        Ok(XmlEvent::Empty(s("b"), vec![])),
        Ok(XmlEvent::End),
        Ok(XmlEvent::Eof),
    ];
    let root = build_document(events).unwrap();
    assert_eq!(root.name, "a");
    assert_eq!(root.attrs, vec![(s("k"), s("v"))]);
    assert_eq!(root.children.len(), 1);
    assert_eq!(root.children[0].name, "b");
}

#[test]
fn document_errors_and_empty_text() {
    let failed = build_document(vec![Ok(XmlEvent::Start(s("a"), vec![])), Err(XmlReadError::Reader(s("bad tag")))]);
    assert_eq!(failed.unwrap_err(), "bad tag");
    let empty = build_document(vec![Ok(XmlEvent::Other), Ok(XmlEvent::Eof)]);
    assert_eq!(empty.unwrap_err(), "empty document");
}

#[test]
fn unclosed_elements_are_closed_at_the_end() {
    let events = vec![
        Ok(XmlEvent::Start(s("a"), vec![])),
        Ok(XmlEvent::Start(s("b"), vec![])),
        Ok(XmlEvent::Eof),
    ];
    let root = build_document(events).unwrap();
    assert_eq!(root.name, "a");
    assert_eq!(root.children.len(), 1);
    assert_eq!(root.children[0].name, "b");
}

#[test]
fn one_token_at_a_time() {
    let mut stack = Vec::new();
    assert!(apply_event(&mut stack, Ok(XmlEvent::Start(s("a"), vec![]))).is_none());
    assert_eq!(stack.len(), 1);
    let done = apply_event(&mut stack, Ok(XmlEvent::End)).unwrap().unwrap();
    assert_eq!(done.name, "a");
    assert!(stack.is_empty());
}

#[test]
fn text_is_read_into_a_tree() {
    let root = parse_xml(r#"<sequence values="BW"><one in="B" out="W"/><!-- note --><all in="W" out="B"></all></sequence>"#).unwrap();
    assert_eq!(root.name, "sequence");
    assert_eq!(root.attrs, vec![(s("values"), s("BW"))]);
    let names: Vec<&str> = root.children.iter().map(|c| c.name.as_str()).collect();
    assert_eq!(names, vec!["one", "all"]);
    assert!(parse_xml("").is_err());
}

#[test]
fn attribute_failures_carry_their_kind() {
    assert_eq!(read_error_message(XmlReadError::Attribute(s("x"))), "attribute error: x");
    assert_eq!(read_error_message(XmlReadError::KeyUtf8(s("y"))), "invalid UTF-8 in attribute key: y");
    assert_eq!(read_error_message(XmlReadError::ValueUtf8(s("z"))), "invalid UTF-8 in attribute value: z");
    assert_eq!(read_error_message(XmlReadError::Reader(s("w"))), "w");
    let r = parse_xml(r#"<one values="BW" in></one>"#);
    assert!(r.unwrap_err().starts_with("attribute error: "));
}
