use std::collections::HashMap;

use alchemy::configure_styles;
use alchemy::AttributeType;
use alchemy::Layout;
use alchemy::Props;
use alchemy::Style;

#[test]
fn props_carry_key_and_styles() {
    let p = Props::new(String::from("row-3"), vec![1, 2, 3], HashMap::new());
    assert_eq!(p.key, "row-3");
    assert_eq!(p.styles, vec![1, 2, 3]);
    assert!(p.attributes.is_empty());
}

#[test]
fn props_lookup_answers_none_for_every_key() {
    let mut attributes = HashMap::new();
    attributes.insert("color", AttributeType::from("red"));
    let p = Props::new(String::from("k"), Vec::new(), attributes);
    assert!(p.get("color").is_none());
    assert!(p.get("key").is_none());
    assert!(p.get("children").is_none());
    assert!(p.get("styles").is_none());
}

#[test]
fn attribute_from_text_wraps_a_json_string() {
    let a = AttributeType::from("hello");
    let AttributeType::Value(v) = a;
    assert_eq!(v, serde_json::Value::String(String::from("hello")));
}

#[test]
fn style_resolution_applies_keys_in_order() {
    let mut style = Style::new();
    configure_styles(&vec![4, 5], &mut style);
    configure_styles(&vec![6], &mut style);
    assert_eq!(style.applied, vec![4, 5, 6]);
}

#[test]
fn fresh_geometry_is_zeroed() {
    let l = Layout::new();
    assert_eq!(l, Layout { order: 0, width: 0, height: 0, x: 0, y: 0 });
}

#[test]
fn stored_geometry_reads_back() {
    let mut host = alchemy::Host::new();
    let h = host.layout.new_node(Style::new(), Vec::new()).unwrap();
    let g = Layout { order: 1, width: 320, height: 200, x: 10, y: -4 };
    host.layout.set_geometry(h, g).unwrap();
    assert_eq!(host.layout.layout(h).unwrap(), g);
}
