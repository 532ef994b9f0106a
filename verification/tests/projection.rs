use json_tree::address::JsonPointer;
use json_tree::node::Node;
use json_tree::project::{root_tree_items, tree_items, tree_items_arr, tree_items_obj};
use json_tree::value::{JsonValue, Scalar};

fn convert(value: &serde_json::Value) -> JsonValue {
    match value {
        serde_json::Value::Null => JsonValue::Scalar(Scalar::Null),
        serde_json::Value::Bool(b) => JsonValue::Scalar(Scalar::Bool(*b)),
        serde_json::Value::Number(n) => JsonValue::Scalar(Scalar::Number(n.clone())),
        serde_json::Value::String(s) => JsonValue::Scalar(Scalar::String(s.clone())),
        serde_json::Value::Array(items) => JsonValue::Array(items.iter().map(convert).collect()),
        serde_json::Value::Object(members) => JsonValue::Object(
            members.iter().map(|(key, value)| (key.clone(), convert(value))).collect(),
        ),
    }
}

fn parse(text: &str) -> JsonValue {
    convert(&serde_json::from_str::<serde_json::Value>(text).unwrap())
}

fn labels(nodes: &[Node]) -> Vec<String> {
    nodes.iter().map(|node| node.label.clone()).collect()
}

fn number(n: i64) -> JsonValue {
    JsonValue::Scalar(Scalar::Number(serde_json::Number::from(n)))
}

fn text(s: &str) -> JsonValue {
    JsonValue::Scalar(Scalar::String(s.to_string()))
}

#[test]
fn object_entries_become_top_level_nodes() {
    let items = root_tree_items(&parse(r#"{"a": 1, "b": [2, 3]}"#));
    assert_eq!(labels(&items), vec!["a: 1", "b"]);
    assert_eq!(items[0].address, JsonPointer::ObjectKey("a".to_string()));
    assert_eq!(items[1].address, JsonPointer::ObjectKey("b".to_string()));
    assert!(items[0].children.is_empty());
    assert_eq!(labels(&items[1].children), vec!["0: 2", "1: 3"]);
    assert_eq!(items[1].children[0].address, JsonPointer::ArrayIndex(0));
    assert_eq!(items[1].children[1].address, JsonPointer::ArrayIndex(1));
}

#[test]
fn scalar_root_becomes_one_leaf() {
    let items = root_tree_items(&parse("42"));
    assert_eq!(items.len(), 1);
    assert_eq!(items[0].address, JsonPointer::Root);
    assert_eq!(items[0].label, "42");
    assert!(items[0].children.is_empty());
}

#[test]
fn empty_containers_have_no_nodes() {
    assert!(root_tree_items(&parse("{}")).is_empty());
    assert!(root_tree_items(&parse("[]")).is_empty());
}

#[test]
fn members_keep_their_order() {
    let value = JsonValue::Object(vec![
        ("zeta".to_string(), number(1)),
        ("alpha".to_string(), JsonValue::Array(vec![])),
        ("mid".to_string(), text("x")),
    ]);
    let items = root_tree_items(&value);
    assert_eq!(labels(&items), vec!["zeta: 1", "alpha", "mid: \"x\""]);
    assert_eq!(items[0].address, JsonPointer::ObjectKey("zeta".to_string()));
    assert_eq!(items[1].address, JsonPointer::ObjectKey("alpha".to_string()));
    assert_eq!(items[2].address, JsonPointer::ObjectKey("mid".to_string()));
}

#[test]
fn elements_keep_their_order() {
    let items = root_tree_items(&parse(r#"[30, 10, 20]"#));
    assert_eq!(labels(&items), vec!["0: 30", "1: 10", "2: 20"]);
    for (index, item) in items.iter().enumerate() {
        assert_eq!(item.address, JsonPointer::ArrayIndex(index));
    }
}

#[test]
fn siblings_have_distinct_addresses() {
    let items = root_tree_items(&parse(r#"{"a": [1, [2, 3], {"a": 0, "b": 0}], "b": {"a": 1}}"#));
    fn check(nodes: &[Node]) {
        for i in 0..nodes.len() {
            for j in (i + 1)..nodes.len() {
                assert_ne!(nodes[i].address, nodes[j].address);
            }
            check(&nodes[i].children);
        }
    }
    check(&items);
}

#[test]
fn leaf_label_is_address_colon_json_text() {
    let items = root_tree_items(&parse(
        r#"{"f": 1.5, "n": null, "neg": -7, "no": false, "s": "hi", "yes": true}"#,
    ));
    assert_eq!(
        labels(&items),
        vec!["f: 1.5", "n: null", "neg: -7", "no: false", "s: \"hi\"", "yes: true"]
    );
}

#[test]
fn string_scalars_are_written_as_json_strings() {
    let leaf = tree_items(JsonPointer::ObjectKey("k".to_string()), &text("a\"b\\c\nd"));
    assert_eq!(leaf.label, "k: \"a\\\"b\\\\c\\nd\"");
    let root = root_tree_items(&text("plain"));
    assert_eq!(root[0].label, "\"plain\"");
}

#[test]
fn scalar_roots_of_every_kind() {
    assert_eq!(root_tree_items(&parse("null"))[0].label, "null");
    assert_eq!(root_tree_items(&parse("true"))[0].label, "true");
    assert_eq!(root_tree_items(&parse("false"))[0].label, "false");
    assert_eq!(root_tree_items(&parse("-3"))[0].label, "-3");
    assert_eq!(root_tree_items(&parse("18446744073709551615"))[0].label, "18446744073709551615");
    assert_eq!(root_tree_items(&parse("0.25"))[0].label, "0.25");
}

#[test]
fn containers_are_labelled_with_their_address_alone() {
    let node = tree_items(JsonPointer::ObjectKey("list".to_string()), &parse("[[], {}]"));
    assert_eq!(node.label, "list");
    assert_eq!(labels(&node.children), vec!["0", "1"]);
    assert!(node.children[0].children.is_empty());
    let nested = tree_items(JsonPointer::ArrayIndex(12), &parse(r#"{"x": 1}"#));
    assert_eq!(nested.label, "12");
    assert_eq!(labels(&nested.children), vec!["x: 1"]);
}

#[test]
fn nodes_of_members_and_of_elements() {
    let members = vec![("k".to_string(), number(5)), ("l".to_string(), parse("[true]"))];
    let nodes = tree_items_obj(&members);
    assert_eq!(labels(&nodes), vec!["k: 5", "l"]);
    assert_eq!(labels(&nodes[1].children), vec!["0: true"]);
    let elements = vec![text("a"), parse("null")];
    let nodes = tree_items_arr(&elements);
    assert_eq!(labels(&nodes), vec!["0: \"a\"", "1: null"]);
}

#[test]
fn leaf_under_the_root_address_has_an_empty_address_text() {
    let leaf = tree_items(JsonPointer::Root, &number(1));
    assert_eq!(leaf.label, ": 1");
    assert_eq!(leaf.address, JsonPointer::default());
}
