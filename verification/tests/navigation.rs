use json_tree::address::JsonPointer;
use json_tree::node::Node;
use json_tree::project::root_tree_items;
use json_tree::state::{NavigationState, Row};
use json_tree::value::{JsonValue, Scalar};

fn from_json(value: &serde_json::Value) -> JsonValue {
    match value {
        serde_json::Value::Null => JsonValue::Scalar(Scalar::Null),
        serde_json::Value::Bool(b) => JsonValue::Scalar(Scalar::Bool(*b)),
        serde_json::Value::Number(n) => JsonValue::Scalar(Scalar::Number(n.clone())),
        serde_json::Value::String(s) => JsonValue::Scalar(Scalar::String(s.clone())),
        serde_json::Value::Array(items) => JsonValue::Array(items.iter().map(from_json).collect()),
        serde_json::Value::Object(members) => JsonValue::Object(
            members.iter().map(|(key, value)| (key.clone(), from_json(value))).collect(),
        ),
    }
}

fn document(text: &str) -> Vec<Node> {
    root_tree_items(&from_json(&serde_json::from_str::<serde_json::Value>(text).unwrap()))
}

fn key(name: &str) -> JsonPointer {
    JsonPointer::ObjectKey(name.to_string())
}

fn index(i: usize) -> JsonPointer {
    JsonPointer::ArrayIndex(i)
}

fn row_labels(rows: &[Row]) -> Vec<String> {
    rows.iter().map(|row| row.label.clone()).collect()
}

fn shown(state: &NavigationState, items: &Vec<Node>) -> Vec<String> {
    row_labels(&state.rows(items))
}

const TALL: usize = 100;

/// The state over `items` with the cursor on the row `target`.
fn on_row(items: &Vec<Node>, state: &mut NavigationState, target: usize) {
    state.select_first(items, TALL);
    for _ in 0..target {
        state.move_down(items, TALL);
    }
}

#[test]
fn new_state_is_empty() {
    let state = NavigationState::new();
    assert_eq!(state.cursor(), None);
    assert_eq!(state.scroll_offset(), 0);
    assert!(!state.overlay_visible());
    assert!(!state.is_expanded(&vec![key("a")]));
    assert!(!state.is_selected(&vec![key("a")]));
    let state = NavigationState::default();
    assert_eq!(state.cursor(), None);
    assert!(state.expanded_paths().is_empty());
    assert_eq!(state.scroll_offset(), 0);
    assert!(!state.overlay_visible());
}

#[test]
fn expanding_a_container_inserts_its_children() {
    let items = document(r#"{"a": 1, "b": [2, 3]}"#);
    let mut state = NavigationState::new();
    assert_eq!(shown(&state, &items), vec!["a: 1", "b"]);
    on_row(&items, &mut state, 1);
    assert_eq!(state.cursor(), Some(vec![key("b")]));
    state.toggle_selected(&items);
    assert!(state.is_expanded(&vec![key("b")]));
    assert_eq!(shown(&state, &items), vec!["a: 1", "b", "0: 2", "1: 3"]);
    let rows = state.rows(&items);
    assert_eq!(rows[0].path, vec![key("a")]);
    assert_eq!(rows[1].path, vec![key("b")]);
    assert_eq!(rows[2].path, vec![key("b"), index(0)]);
    assert_eq!(rows[3].path, vec![key("b"), index(1)]);
    assert_eq!(
        rows.iter().map(|row| row.selected).collect::<Vec<bool>>(),
        vec![false, true, false, false]
    );
    assert_eq!(
        rows.iter().map(|row| row.expandable).collect::<Vec<bool>>(),
        vec![false, true, false, false]
    );
    assert_eq!(
        rows.iter().map(|row| row.expanded).collect::<Vec<bool>>(),
        vec![false, true, false, false]
    );
}

#[test]
fn scalar_document_cannot_be_expanded() {
    let items = document("42");
    let mut state = NavigationState::new();
    let rows = state.rows(&items);
    assert_eq!(rows.len(), 1);
    assert_eq!(rows[0].path, vec![JsonPointer::Root]);
    assert_eq!(rows[0].label, "42");
    assert!(!rows[0].expandable);
    state.select_first(&items, TALL);
    assert_eq!(state.cursor(), Some(vec![JsonPointer::Root]));
    state.toggle_selected(&items);
    assert!(!state.is_expanded(&vec![JsonPointer::Root]));
    state.move_right(&items, TALL);
    assert!(!state.is_expanded(&vec![JsonPointer::Root]));
    state.move_left(&items, TALL);
    assert_eq!(state.cursor(), Some(vec![JsonPointer::Root]));
    assert_eq!(shown(&state, &items), vec!["42"]);
}

#[test]
fn empty_document_has_no_rows() {
    let items = document("{}");
    let mut state = NavigationState::new();
    assert!(state.rows(&items).is_empty());
    state.select_first(&items, TALL);
    assert_eq!(state.cursor(), None);
    state.select_last(&items, TALL);
    assert_eq!(state.cursor(), None);
    state.move_down(&items, TALL);
    assert_eq!(state.cursor(), None);
    state.move_up(&items, TALL);
    assert_eq!(state.cursor(), None);
    state.toggle_selected(&items);
    state.move_left(&items, TALL);
    state.move_right(&items, TALL);
    assert_eq!(state.cursor(), None);
    assert_eq!(state.scroll_offset(), 0);
}

#[test]
fn select_last_brings_the_last_row_into_view() {
    let items = document(r#"{"a": 1, "b": [2, 3]}"#);
    let mut state = NavigationState::new();
    on_row(&items, &mut state, 1);
    state.toggle_selected(&items);
    state.select_first(&items, 2);
    assert_eq!(state.scroll_offset(), 0);
    state.select_last(&items, 2);
    assert_eq!(state.cursor(), Some(vec![key("b"), index(1)]));
    let rows = state.rows(&items);
    assert_eq!(rows[3].label, "1: 3");
    assert!(rows[3].selected);
    assert_eq!(state.scroll_offset(), 2);
    assert!(state.scroll_offset() <= 3 && 3 < state.scroll_offset() + 2);
}

#[test]
fn toggling_twice_restores_the_expanded_paths() {
    let items = document(r#"{"a": 1, "b": [2, 3]}"#);
    let mut state = NavigationState::new();
    on_row(&items, &mut state, 1);
    let before = shown(&state, &items);
    state.toggle_selected(&items);
    assert!(state.is_expanded(&vec![key("b")]));
    state.toggle_selected(&items);
    assert!(!state.is_expanded(&vec![key("b")]));
    assert_eq!(shown(&state, &items), before);
    state.toggle_selected(&items);
    state.toggle_selected(&items);
    state.toggle_selected(&items);
    assert!(state.is_expanded(&vec![key("b")]));
    assert_eq!(state.cursor(), Some(vec![key("b")]));
}

#[test]
fn toggling_a_leaf_or_an_empty_container_changes_nothing() {
    let items = document(r#"{"empty": {}, "leaf": 1, "list": []}"#);
    let mut state = NavigationState::new();
    for row in 0..3 {
        on_row(&items, &mut state, row);
        let cursor = state.cursor().unwrap();
        state.toggle_selected(&items);
        assert!(!state.is_expanded(&cursor));
        state.move_right(&items, TALL);
        assert!(!state.is_expanded(&cursor));
        assert_eq!(state.cursor(), Some(cursor));
    }
    assert_eq!(shown(&state, &items), vec!["empty", "leaf: 1", "list"]);
}

#[test]
fn toggling_without_a_cursor_changes_nothing() {
    let items = document(r#"{"b": [2, 3]}"#);
    let mut state = NavigationState::new();
    state.toggle_selected(&items);
    assert_eq!(state.cursor(), None);
    assert!(!state.is_expanded(&vec![key("b")]));
    assert_eq!(shown(&state, &items), vec!["b"]);
}

#[test]
fn collapsing_removes_exactly_the_descendants() {
    let items = document(r#"{"a": {"x": [1, 2], "y": 3}, "b": 4}"#);
    let mut state = NavigationState::new();
    on_row(&items, &mut state, 0);
    state.toggle_selected(&items);
    on_row(&items, &mut state, 1);
    state.toggle_selected(&items);
    assert_eq!(shown(&state, &items), vec!["a", "x", "0: 1", "1: 2", "y: 3", "b: 4"]);
    state.toggle_selected(&items);
    assert_eq!(shown(&state, &items), vec!["a", "x", "y: 3", "b: 4"]);
    state.toggle_selected(&items);
    on_row(&items, &mut state, 0);
    state.toggle_selected(&items);
    assert_eq!(shown(&state, &items), vec!["a", "b: 4"]);
    assert!(state.is_expanded(&vec![key("a"), key("x")]));
    state.toggle_selected(&items);
    assert_eq!(shown(&state, &items), vec!["a", "x", "0: 1", "1: 2", "y: 3", "b: 4"]);
}

#[test]
fn equal_keys_at_different_places_are_different_paths() {
    let items = document(r#"{"a": {"a": [1]}, "b": {"a": [2]}}"#);
    let mut state = NavigationState::new();
    on_row(&items, &mut state, 1);
    state.toggle_selected(&items);
    assert_eq!(shown(&state, &items), vec!["a", "b", "a"]);
    assert!(state.is_expanded(&vec![key("b")]));
    assert!(!state.is_expanded(&vec![key("a")]));
    on_row(&items, &mut state, 2);
    assert_eq!(state.cursor(), Some(vec![key("b"), key("a")]));
    state.toggle_selected(&items);
    assert_eq!(shown(&state, &items), vec!["a", "b", "a", "0: 2"]);
    assert!(!state.is_expanded(&vec![key("a"), key("a")]));
}

#[test]
fn move_down_stops_at_the_last_row() {
    let items = document(r#"[10, 20, 30]"#);
    let mut state = NavigationState::new();
    state.move_down(&items, TALL);
    assert_eq!(state.cursor(), Some(vec![index(0)]));
    state.move_down(&items, TALL);
    assert_eq!(state.cursor(), Some(vec![index(1)]));
    state.move_down(&items, TALL);
    assert_eq!(state.cursor(), Some(vec![index(2)]));
    for _ in 0..5 {
        state.move_down(&items, TALL);
        assert_eq!(state.cursor(), Some(vec![index(2)]));
        assert_eq!(state.scroll_offset(), 0);
    }
}

#[test]
fn move_up_stops_at_the_first_row() {
    let items = document(r#"[10, 20, 30]"#);
    let mut state = NavigationState::new();
    state.move_up(&items, TALL);
    assert_eq!(state.cursor(), Some(vec![index(2)]));
    state.move_up(&items, TALL);
    assert_eq!(state.cursor(), Some(vec![index(1)]));
    state.move_up(&items, TALL);
    assert_eq!(state.cursor(), Some(vec![index(0)]));
    for _ in 0..5 {
        state.move_up(&items, TALL);
        assert_eq!(state.cursor(), Some(vec![index(0)]));
    }
}

#[test]
fn cursor_is_always_on_a_visible_row() {
    let items = document(r#"{"a": {"x": [1, 2], "y": 3}, "b": [4, {"z": 5}]}"#);
    let mut state = NavigationState::new();
    let steps = [0, 2, 0, 3, 0, 0, 2, 0, 1, 1, 4, 0, 0, 0, 2, 3, 1, 1, 1, 5, 2, 0, 3, 4, 1, 3, 3];
    for step in steps {
        match step {
            0 => state.move_down(&items, 3),
            1 => state.move_up(&items, 3),
            2 => state.toggle_selected(&items),
            3 => state.move_right(&items, 3),
            4 => state.move_left(&items, 3),
            _ => state.select_last(&items, 3),
        }
        let rows = state.rows(&items);
        let cursor = state.cursor().unwrap();
        let selected: Vec<&Row> = rows.iter().filter(|row| row.selected).collect();
        assert_eq!(selected.len(), 1);
        assert_eq!(selected[0].path, cursor);
    }
}

#[test]
fn move_left_collapses_then_goes_to_the_parent() {
    let items = document(r#"{"a": {"x": [1, 2], "y": 3}, "b": 4}"#);
    let mut state = NavigationState::new();
    on_row(&items, &mut state, 0);
    state.move_right(&items, TALL);
    state.move_right(&items, TALL);
    assert_eq!(state.cursor(), Some(vec![key("a"), key("x")]));
    state.move_right(&items, TALL);
    assert!(state.is_expanded(&vec![key("a"), key("x")]));
    state.move_left(&items, TALL);
    assert!(!state.is_expanded(&vec![key("a"), key("x")]));
    assert_eq!(state.cursor(), Some(vec![key("a"), key("x")]));
    state.move_left(&items, TALL);
    assert_eq!(state.cursor(), Some(vec![key("a")]));
    assert!(state.is_expanded(&vec![key("a")]));
    state.move_left(&items, TALL);
    assert!(!state.is_expanded(&vec![key("a")]));
    assert_eq!(state.cursor(), Some(vec![key("a")]));
    state.move_left(&items, TALL);
    assert_eq!(state.cursor(), Some(vec![key("a")]));
    assert_eq!(shown(&state, &items), vec!["a", "b: 4"]);
}

#[test]
fn move_left_from_a_leaf_goes_to_the_parent() {
    let items = document(r#"{"a": {"x": [1, 2], "y": 3}, "b": 4}"#);
    let mut state = NavigationState::new();
    on_row(&items, &mut state, 0);
    state.toggle_selected(&items);
    on_row(&items, &mut state, 2);
    assert_eq!(state.cursor(), Some(vec![key("a"), key("y")]));
    state.move_left(&items, TALL);
    assert_eq!(state.cursor(), Some(vec![key("a")]));
    on_row(&items, &mut state, 3);
    assert_eq!(state.cursor(), Some(vec![key("b")]));
    state.move_left(&items, TALL);
    assert_eq!(state.cursor(), Some(vec![key("b")]));
}

#[test]
fn move_left_brings_the_parent_into_view() {
    let items = document(r#"{"a": [1, 2, 3, 4, 5]}"#);
    let mut state = NavigationState::new();
    on_row(&items, &mut state, 0);
    state.toggle_selected(&items);
    state.select_last(&items, 2);
    assert_eq!(state.scroll_offset(), 4);
    state.move_left(&items, 2);
    assert_eq!(state.cursor(), Some(vec![key("a")]));
    assert_eq!(state.scroll_offset(), 0);
}

#[test]
fn move_right_expands_then_goes_to_the_first_child() {
    let items = document(r#"{"a": {"x": [1, 2], "y": 3}, "b": 4}"#);
    let mut state = NavigationState::new();
    state.move_right(&items, TALL);
    assert_eq!(state.cursor(), None);
    on_row(&items, &mut state, 0);
    state.move_right(&items, TALL);
    assert!(state.is_expanded(&vec![key("a")]));
    assert_eq!(state.cursor(), Some(vec![key("a")]));
    state.move_right(&items, TALL);
    assert_eq!(state.cursor(), Some(vec![key("a"), key("x")]));
    state.move_right(&items, TALL);
    state.move_right(&items, TALL);
    assert_eq!(state.cursor(), Some(vec![key("a"), key("x"), index(0)]));
    state.move_right(&items, TALL);
    assert_eq!(state.cursor(), Some(vec![key("a"), key("x"), index(0)]));
    assert_eq!(shown(&state, &items), vec!["a", "x", "0: 1", "1: 2", "y: 3", "b: 4"]);
}

#[test]
fn move_right_brings_the_child_into_view() {
    let items = document(r#"[0, 1, {"k": 2}]"#);
    let mut state = NavigationState::new();
    state.select_last(&items, 3);
    state.move_right(&items, 3);
    assert_eq!(state.scroll_offset(), 0);
    state.move_right(&items, 3);
    assert_eq!(state.cursor(), Some(vec![index(2), key("k")]));
    assert_eq!(state.scroll_offset(), 1);
}

#[test]
fn moving_scrolls_only_as_far_as_needed() {
    let items = document(r#"[0, 1, 2, 3, 4, 5]"#);
    let mut state = NavigationState::new();
    let mut offsets = Vec::new();
    for _ in 0..6 {
        state.move_down(&items, 3);
        offsets.push(state.scroll_offset());
    }
    assert_eq!(offsets, vec![0, 0, 0, 1, 2, 3]);
    let mut offsets = Vec::new();
    for _ in 0..5 {
        state.move_up(&items, 3);
        offsets.push(state.scroll_offset());
    }
    assert_eq!(offsets, vec![3, 3, 2, 1, 0]);
}

#[test]
fn a_viewport_without_height_counts_as_one_row() {
    let items = document(r#"[0, 1, 2]"#);
    let mut state = NavigationState::new();
    state.move_down(&items, 0);
    assert_eq!(state.scroll_offset(), 0);
    state.move_down(&items, 0);
    assert_eq!(state.scroll_offset(), 1);
    state.move_down(&items, 1);
    assert_eq!(state.scroll_offset(), 2);
    state.select_first(&items, 0);
    assert_eq!(state.scroll_offset(), 0);
}

#[test]
fn select_first_and_last() {
    let items = document(r#"{"a": 1, "b": [2, 3], "c": null}"#);
    let mut state = NavigationState::new();
    state.select_last(&items, TALL);
    assert_eq!(state.cursor(), Some(vec![key("c")]));
    state.select_first(&items, TALL);
    assert_eq!(state.cursor(), Some(vec![key("a")]));
    state.move_down(&items, TALL);
    state.toggle_selected(&items);
    state.select_last(&items, TALL);
    assert_eq!(state.cursor(), Some(vec![key("c")]));
    state.move_up(&items, TALL);
    assert_eq!(state.cursor(), Some(vec![key("b"), index(1)]));
}

#[test]
fn scrolling_is_clamped() {
    let items = document(r#"[0, 1, 2, 3, 4, 5, 6, 7, 8, 9]"#);
    let mut state = NavigationState::new();
    state.scroll_down(&items, 3, 4);
    assert_eq!(state.scroll_offset(), 3);
    state.scroll_down(&items, 3, 4);
    assert_eq!(state.scroll_offset(), 6);
    state.scroll_down(&items, 3, 4);
    assert_eq!(state.scroll_offset(), 6);
    state.scroll_down(&items, usize::MAX, 4);
    assert_eq!(state.scroll_offset(), 6);
    state.scroll_up(&items, 1, 4);
    assert_eq!(state.scroll_offset(), 5);
    state.scroll_up(&items, 0, 4);
    assert_eq!(state.scroll_offset(), 5);
    state.scroll_up(&items, 10, 4);
    assert_eq!(state.scroll_offset(), 0);
    state.scroll_up(&items, 1, 4);
    assert_eq!(state.scroll_offset(), 0);
    assert_eq!(state.cursor(), None);
}

#[test]
fn scrolling_a_document_that_fits_does_nothing() {
    let items = document(r#"[0, 1, 2]"#);
    let mut state = NavigationState::new();
    state.scroll_down(&items, 1, 3);
    assert_eq!(state.scroll_offset(), 0);
    state.scroll_down(&items, 5, 10);
    assert_eq!(state.scroll_offset(), 0);
    state.scroll_down(&items, 5, 0);
    assert_eq!(state.scroll_offset(), 3);
}

#[test]
fn scrolling_follows_the_rows_that_are_left() {
    let items = document(r#"{"a": [0, 1, 2, 3, 4, 5, 6, 7]}"#);
    let mut state = NavigationState::new();
    state.select_first(&items, 3);
    state.toggle_selected(&items);
    state.scroll_down(&items, 100, 3);
    assert_eq!(state.scroll_offset(), 6);
    assert_eq!(state.cursor(), Some(vec![key("a")]));
    state.toggle_selected(&items);
    state.scroll_up(&items, 1, 3);
    assert_eq!(state.scroll_offset(), 0);
}

#[test]
fn expanded_paths_are_listed() {
    let items = document(r#"{"a": {"x": [1, 2], "y": 3}, "b": [4]}"#);
    let mut state = NavigationState::new();
    assert!(state.expanded_paths().is_empty());
    on_row(&items, &mut state, 0);
    state.toggle_selected(&items);
    on_row(&items, &mut state, 1);
    state.toggle_selected(&items);
    state.select_last(&items, TALL);
    state.toggle_selected(&items);
    let mut listed = state.expanded_paths();
    listed.sort_by_key(|path| path.len() * 10 + usize::from(path[0] == key("b")));
    assert_eq!(listed, vec![vec![key("a")], vec![key("b")], vec![key("a"), key("x")]]);
    on_row(&items, &mut state, 0);
    state.toggle_selected(&items);
    let mut listed = state.expanded_paths();
    listed.sort_by_key(|path| path.len());
    assert_eq!(listed, vec![vec![key("b")], vec![key("a"), key("x")]]);
}

#[test]
fn screen_holds_what_is_painted() {
    let items = document(r#"{"a": 1, "b": [2, 3]}"#);
    let mut state = NavigationState::new();
    state.select_last(&items, 1);
    state.toggle_overlay();
    let screen = state.screen(&items);
    assert_eq!(row_labels(&screen.rows), vec!["a: 1", "b"]);
    assert_eq!(screen.scroll_offset, 1);
    assert!(screen.overlay_visible);
    assert!(screen.rows[1].selected && !screen.rows[0].selected);
}

#[test]
fn overlay_toggles() {
    let mut state = NavigationState::new();
    state.toggle_overlay();
    assert!(state.overlay_visible());
    state.toggle_overlay();
    assert!(!state.overlay_visible());
}
