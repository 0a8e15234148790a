// Cascade behaviour: display resolution, precedence, tie-breaks, and
// property lookup.

use robinson::css;
use robinson::css::{Color, Value};
use robinson::parser;
use robinson::style::{style_tree, Display};

#[test]
fn display_block() {
    let root = parser::parse("<div>Hello World!</div>".to_string()).unwrap();
    let stylesheet = css::parse("div { display: block; }".to_string()).unwrap();
    let styled_node = style_tree(&root, &stylesheet);
    assert_eq!(Display::Block, styled_node.display());
}

#[test]
fn display_inline() {
    let root = parser::parse("<div>Hello World!</div>".to_string()).unwrap();
    let stylesheet = css::parse("div { color: red; }".to_string()).unwrap();
    let styled_node = style_tree(&root, &stylesheet);
    assert_eq!(Display::Inline, styled_node.display());
}

#[test]
fn display_none() {
    let root = parser::parse("<div>Hello World!</div>".to_string()).unwrap();
    let stylesheet = css::parse("div { display: none; }".to_string()).unwrap();
    let styled_node = style_tree(&root, &stylesheet);
    assert_eq!(Display::NoDisplay, styled_node.display());
}

#[test]
fn display_unrecognized_keyword_is_inline() {
    let root = parser::parse("<div>Hello World!</div>".to_string()).unwrap();
    let stylesheet = css::parse("div { display: foo; }".to_string()).unwrap();
    let styled_node = style_tree(&root, &stylesheet);
    assert_eq!(Display::Inline, styled_node.display());
}

#[test]
fn later_rule_wins_equal_specificity_tie() {
    let root = parser::parse("<div>x</div>".to_string()).unwrap();
    let stylesheet =
        css::parse("div { color: red; } div { color: blue; }".to_string()).unwrap();
    let styled = style_tree(&root, &stylesheet);
    assert_eq!(styled.value("color").unwrap(), Value::Keyword("blue".to_string()));
}

#[test]
fn class_selector_outranks_tag_selector() {
    let root = parser::parse("<div class=\"x\">x</div>".to_string()).unwrap();
    let sheet_a = css::parse("div { color: red; } .x { color: blue; }".to_string()).unwrap();
    let styled_order_a = style_tree(&root, &sheet_a);
    assert_eq!(styled_order_a.value("color").unwrap(), Value::Keyword("blue".to_string()));
    let sheet_b = css::parse(".x { color: blue; } div { color: red; }".to_string()).unwrap();
    let styled_order_b = style_tree(&root, &sheet_b);
    assert_eq!(styled_order_b.value("color").unwrap(), Value::Keyword("blue".to_string()));
}

#[test]
fn id_selector_outranks_class_selector() {
    let root = parser::parse("<p id=\"m\" class=\"x\">x</p>".to_string()).unwrap();
    let sheet = css::parse("#m { color: red; } .x { color: blue; }".to_string()).unwrap();
    let styled = style_tree(&root, &sheet);
    assert_eq!(
        styled.value("color").unwrap(),
        Value::ColorValue(Color { r: 255, g: 0, b: 0, a: 255 })
    );
}

#[test]
fn non_matching_rule_contributes_nothing() {
    let root = parser::parse("<div>x</div>".to_string()).unwrap();
    let sheet = css::parse("span { color: red; }".to_string()).unwrap();
    let styled = style_tree(&root, &sheet);
    assert_eq!(styled.value("color"), None);
}

#[test]
fn selector_with_several_classes_requires_all() {
    let root = parser::parse("<div class=\"a\">x</div>".to_string()).unwrap();
    let sheet = css::parse(".a.b { color: red; }".to_string()).unwrap();
    let styled = style_tree(&root, &sheet);
    assert_eq!(styled.value("color"), None);
    let root2 = parser::parse("<div class=\"a b\">x</div>".to_string()).unwrap();
    let styled2 = style_tree(&root2, &sheet);
    assert!(styled2.value("color").is_some());
}

#[test]
fn text_children_carry_no_properties() {
    let root = parser::parse("<div>text</div>".to_string()).unwrap();
    let sheet = css::parse("div { color: red; }".to_string()).unwrap();
    let styled = style_tree(&root, &sheet);
    assert_eq!(styled.children.len(), 1);
    assert_eq!(styled.children[0].value("color"), None);
    assert_eq!(styled.children[0].display(), Display::Inline);
}

#[test]
fn lookup_falls_back_then_defaults() {
    let root = parser::parse("<div>x</div>".to_string()).unwrap();
    let sheet = css::parse("div { margin: 4px; }".to_string()).unwrap();
    let styled = style_tree(&root, &sheet);
    let default = Value::Keyword("auto".to_string());
    assert_eq!(
        styled.lookup("margin-left", "margin", &default),
        Value::Length("4".to_string(), robinson::css::Unit::Px)
    );
    assert_eq!(styled.lookup("padding-left", "padding", &default), default);
}

#[test]
fn universal_selector_matches_everything() {
    let root = parser::parse("<div>x</div>".to_string()).unwrap();
    let sheet = css::parse("* { color: red; }".to_string()).unwrap();
    let styled = style_tree(&root, &sheet);
    assert!(styled.value("color").is_some());
}

#[test]
fn any_selector_of_a_rule_can_match() {
    let root = parser::parse("<h2>x</h2>".to_string()).unwrap();
    let sheet = css::parse("h1, h2 { color: red; }".to_string()).unwrap();
    let styled = style_tree(&root, &sheet);
    assert!(styled.value("color").is_some());
}

#[test]
fn tab_separated_classes_match() {
    let root = parser::parse("<div class='a\tb'>x</div>".to_string()).unwrap();
    let sheet = css::parse(".a.b { color: red; }".to_string()).unwrap();
    let styled = style_tree(&root, &sheet);
    assert!(styled.value("color").is_some());
}
