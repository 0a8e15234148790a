// Stylesheet parser behaviour: rules, selectors, values, specificity,
// and fatal failures.

use robinson::css::{
    parse, Color, Declaration, Rule, Selector, SimpleSelector, Stylesheet, Unit, Value,
};
use robinson::errors::ParseError;

fn tag_selector(name: &str) -> Selector {
    Selector::Simple(SimpleSelector {
        tag_name: Some(name.to_string()),
        id: None,
        class: Vec::new(),
    })
}

#[test]
fn parse_simple_css() {
    let parsed = parse("body { margin: 8px; }".to_string()).unwrap();
    let mut selectors = Vec::new();
    selectors.push(tag_selector("body"));
    let mut declarations = Vec::new();
    declarations.push(Declaration {
        name: "margin".to_string(),
        value: Value::Length("8".to_string(), Unit::Px),
    });
    let mut rules = Vec::new();
    rules.push(Rule { selectors, declarations });
    let expected = Stylesheet { rules };
    assert_eq!(expected, parsed);
}

#[test]
fn parse_rgb_color() {
    // #FF0000 = red
    let parsed = parse("body { background: #FF0000; }".to_string()).unwrap();
    let mut selectors = Vec::new();
    selectors.push(tag_selector("body"));
    let mut declarations = Vec::new();
    declarations.push(Declaration {
        name: "background".to_string(),
        value: Value::ColorValue(Color { r: 255, g: 0, b: 0, a: 255 }),
    });
    let mut rules = Vec::new();
    rules.push(Rule { selectors, declarations });
    let expected = Stylesheet { rules };
    assert_eq!(expected, parsed);
}

#[test]
fn parse_color_name() {
    let parsed = parse("body { background: red; }".to_string()).unwrap();
    let mut selectors = Vec::new();
    selectors.push(tag_selector("body"));
    let mut declarations = Vec::new();
    declarations.push(Declaration {
        name: "background".to_string(),
        value: Value::ColorValue(Color { r: 255, g: 0, b: 0, a: 255 }),
    });
    let mut rules = Vec::new();
    rules.push(Rule { selectors, declarations });
    let expected = Stylesheet { rules };
    assert_eq!(expected, parsed);
}

#[test]
fn hex_color_and_keyword_red_parse_alike() {
    let hex = parse("b { c: #FF0000; }".to_string()).unwrap();
    let name = parse("b { c: red; }".to_string()).unwrap();
    assert_eq!(hex.rules[0].declarations[0].value, name.rules[0].declarations[0].value);
    assert_eq!(
        hex.rules[0].declarations[0].value,
        Value::ColorValue(Color { r: 255, g: 0, b: 0, a: 255 })
    );
}

#[test]
fn mixed_case_hex_color() {
    let parsed = parse("b { c: #0aBc12; }".to_string()).unwrap();
    assert_eq!(
        parsed.rules[0].declarations[0].value,
        Value::ColorValue(Color { r: 10, g: 188, b: 18, a: 255 })
    );
}

#[test]
fn unit_is_case_insensitive() {
    let parsed = parse("b { w: 10PX; }".to_string()).unwrap();
    assert_eq!(
        parsed.rules[0].declarations[0].value,
        Value::Length("10".to_string(), Unit::Px)
    );
}

#[test]
fn specificity_triples() {
    let with_id = Selector::Simple(SimpleSelector {
        tag_name: None,
        id: Some("a".to_string()),
        class: Vec::new(),
    });
    let with_classes = Selector::Simple(SimpleSelector {
        tag_name: None,
        id: None,
        class: vec!["b".to_string(), "c".to_string()],
    });
    let with_tag = tag_selector("div");
    assert_eq!(with_id.specificity(), (1, 0, 0));
    assert_eq!(with_classes.specificity(), (0, 2, 0));
    assert_eq!(with_tag.specificity(), (0, 0, 1));
    assert!(with_id.specificity() > with_classes.specificity());
    assert!(with_classes.specificity() > with_tag.specificity());
}

#[test]
fn selectors_are_sorted_by_descending_specificity() {
    let parsed = parse("div, #a, .b.c { k: v; }".to_string()).unwrap();
    let specs: Vec<(usize, usize, usize)> =
        parsed.rules[0].selectors.iter().map(|s| s.specificity()).collect();
    assert_eq!(specs, vec![(1, 0, 0), (0, 2, 0), (0, 0, 1)]);
}

#[test]
fn missing_semicolon_is_fatal() {
    let r = parse("div { color: red }".to_string());
    assert_eq!(r.unwrap_err(), ParseError::UnexpectedChar);
}

#[test]
fn unknown_unit_is_fatal() {
    let r = parse("div { margin: 10cm; }".to_string());
    assert_eq!(r.unwrap_err(), ParseError::UnknownUnit);
}

#[test]
fn malformed_number_is_fatal() {
    let r = parse("div { margin: 1.2.3px; }".to_string());
    assert_eq!(r.unwrap_err(), ParseError::MalformedNumber);
}

#[test]
fn truncated_block_is_fatal() {
    let r = parse("div { color: red;".to_string());
    assert_eq!(r.unwrap_err(), ParseError::TruncatedInput);
}

#[test]
fn bad_selector_separator_is_fatal() {
    let r = parse("div ; { color: red; }".to_string());
    assert_eq!(r.unwrap_err(), ParseError::UnexpectedChar);
}

#[test]
fn repeated_id_fragment_is_overwritten() {
    let parsed = parse("#a#b { k: v; }".to_string()).unwrap();
    let expected = Selector::Simple(SimpleSelector {
        tag_name: None,
        id: Some("b".to_string()),
        class: Vec::new(),
    });
    assert_eq!(parsed.rules[0].selectors[0], expected);
}

#[test]
fn form_feed_is_whitespace() {
    let parsed = parse("div\u{000C}{ color: red; }".to_string()).unwrap();
    assert_eq!(parsed.rules.len(), 1);
    assert_eq!(parsed.rules[0].declarations[0].name, "color");
}
