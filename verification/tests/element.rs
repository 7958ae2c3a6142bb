use parser_combinators::element::Element;

#[test]
fn element_owns_its_attributes_and_children() {
    let child = Element {
        name: "child".to_string(),
        attributes: vec![],
        children: vec![],
    };
    let parent = Element {
        name: "parent".to_string(),
        attributes: vec![
            ("first".to_string(), "1".to_string()),
            ("second".to_string(), "2".to_string()),
        ],
        children: vec![child],
    };
    assert_eq!("parent", parent.name);
    assert_eq!(2, parent.attributes.len());
    assert_eq!(("first".to_string(), "1".to_string()), parent.attributes[0]);
    assert_eq!(1, parent.children.len());
    assert_eq!("child", parent.children[0].name);
    assert!(parent.children[0].children.is_empty());
}
