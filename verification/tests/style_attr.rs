// The inline-style convenience view: an element's "style" attribute
// read as a one-rule stylesheet scoped to that element.

use robinson::{css, dom, parser};

#[test]
fn test_parse_style_attr() {
    let html = "<html style=\"color: red;\">Title</html>".to_string();
    let parsed = parser::parse(html).unwrap();
    let element_data = match parsed.node_type {
        dom::NodeType::Element(ref element_data) => element_data,
        _ => panic!("element not found"),
    };
    let stylesheet = element_data.style().unwrap();

    let expected = css::parse("html { color: red; }".to_string()).unwrap();
    assert_eq!(expected, stylesheet);
}

#[test]
fn style_attr_absent_yields_empty_rule() {
    let parsed = parser::parse("<div>t</div>".to_string()).unwrap();
    let element_data = match parsed.node_type {
        dom::NodeType::Element(ref element_data) => element_data,
        _ => panic!("element not found"),
    };
    let stylesheet = element_data.style().unwrap();
    let expected = css::parse("div {}".to_string()).unwrap();
    assert_eq!(expected, stylesheet);
}
