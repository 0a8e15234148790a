// Markup parser behaviour: documents, attributes, comments, root
// wrapping, and fatal failures.

use robinson::dom;
use robinson::dom::AttrMap;
use robinson::errors::ParseError;
use robinson::parser;

#[test]
fn test_simple_parse() {
    let html = "<html lang='ja' data-theme='light'>Title</html>".to_string();
    let parsed = parser::parse(html).unwrap();

    let mut attrs = AttrMap::new();
    attrs.insert("lang".to_string(), "ja".to_string());
    attrs.insert("data-theme".to_string(), "light".to_string());
    let mut children = Vec::new();
    let text = dom::text("Title".to_string());
    children.push(text);
    let expected = dom::elem("html".to_string(), attrs, children);

    assert_eq!(expected, parsed);
}

#[test]
fn parse_comment() {
    let html = "<html lang='ja' data-theme='light'><!-- Title --></html>".to_string();
    let parsed = parser::parse(html).unwrap();

    let mut attrs = AttrMap::new();
    attrs.insert("lang".to_string(), "ja".to_string());
    attrs.insert("data-theme".to_string(), "light".to_string());
    let mut children = Vec::new();
    let comment = dom::comment(" Title ".to_string());
    children.push(comment);
    let expected = dom::elem("html".to_string(), attrs, children);

    assert_eq!(expected, parsed);
}

#[test]
fn single_root_is_unwrapped() {
    let parsed = parser::parse("<div>hi</div>".to_string()).unwrap();
    let mut children = Vec::new();
    children.push(dom::text("hi".to_string()));
    let expected = dom::elem("div".to_string(), AttrMap::new(), children);
    assert_eq!(expected, parsed);
}

#[test]
fn multiple_roots_get_synthetic_html_wrapper() {
    let parsed = parser::parse("<a></a><b></b><c></c>".to_string()).unwrap();
    let mut children = Vec::new();
    children.push(dom::elem("a".to_string(), AttrMap::new(), Vec::new()));
    children.push(dom::elem("b".to_string(), AttrMap::new(), Vec::new()));
    children.push(dom::elem("c".to_string(), AttrMap::new(), Vec::new()));
    let expected = dom::elem("html".to_string(), AttrMap::new(), children);
    assert_eq!(expected, parsed);
}

#[test]
fn empty_document_yields_empty_synthetic_root() {
    let parsed = parser::parse("".to_string()).unwrap();
    let expected = dom::elem("html".to_string(), AttrMap::new(), Vec::new());
    assert_eq!(expected, parsed);
}

#[test]
fn double_quoted_attributes_parse() {
    let parsed = parser::parse("<p id=\"x\">t</p>".to_string()).unwrap();
    let mut attrs = AttrMap::new();
    attrs.insert("id".to_string(), "x".to_string());
    let mut children = Vec::new();
    children.push(dom::text("t".to_string()));
    let expected = dom::elem("p".to_string(), attrs, children);
    assert_eq!(expected, parsed);
}

#[test]
fn mismatched_closing_tag_is_fatal() {
    let r = parser::parse("<a></b>".to_string());
    assert_eq!(r.unwrap_err(), ParseError::UnmatchedClosingTag);
}

#[test]
fn unclosed_element_is_fatal() {
    let r = parser::parse("<a>".to_string());
    assert_eq!(r.unwrap_err(), ParseError::TruncatedInput);
}

#[test]
fn unterminated_attribute_quote_is_fatal() {
    let r = parser::parse("<a href='x>t</a>".to_string());
    assert_eq!(r.unwrap_err(), ParseError::TruncatedInput);
}

#[test]
fn malformed_comment_closer_is_fatal() {
    let r = parser::parse("<html><!-- hi -></html>".to_string());
    assert_eq!(r.unwrap_err(), ParseError::UnexpectedChar);
}

#[test]
fn element_data_queries() {
    let parsed = parser::parse("<div id='main' class='a b'>x</div>".to_string()).unwrap();
    match parsed.node_type {
        dom::NodeType::Element(ref ed) => {
            assert_eq!(ed.id().unwrap(), "main");
            let classes = ed.classes();
            assert_eq!(classes, vec!["a".to_string(), "b".to_string()]);
        },
        _ => panic!("expected an element"),
    }
}

#[test]
fn repeated_attribute_last_wins_in_lookup() {
    let parsed = parser::parse("<a x='1' x='2'>t</a>".to_string()).unwrap();
    match parsed.node_type {
        dom::NodeType::Element(ref ed) => {
            assert_eq!(ed.attributes.get("x").unwrap(), "2");
        },
        _ => panic!("expected an element"),
    }
}

#[test]
fn class_tokens_exclude_empties() {
    let parsed = parser::parse("<div class='  a   b '>x</div>".to_string()).unwrap();
    match parsed.node_type {
        dom::NodeType::Element(ref ed) => {
            assert_eq!(ed.classes(), vec!["a".to_string(), "b".to_string()]);
        },
        _ => panic!("expected an element"),
    }
}

#[test]
fn class_tokens_split_at_any_whitespace() {
    let parsed = parser::parse("<div class='a\tb\nc'>x</div>".to_string()).unwrap();
    match parsed.node_type {
        dom::NodeType::Element(ref ed) => {
            assert_eq!(
                ed.classes(),
                vec!["a".to_string(), "b".to_string(), "c".to_string()]
            );
        },
        _ => panic!("expected an element"),
    }
}

#[test]
fn empty_class_attribute_yields_no_tokens() {
    let parsed = parser::parse("<div class=''>x</div>".to_string()).unwrap();
    match parsed.node_type {
        dom::NodeType::Element(ref ed) => {
            assert_eq!(ed.classes(), Vec::<String>::new());
        },
        _ => panic!("expected an element"),
    }
}
