//! The navigation state as a mathematical value, and what each operation
//! makes of it.

use vstd::prelude::*;
use crate::address::Path;
use crate::node::Tree;
use crate::rows::{
    below, document_rows, first_child_row, lemma_child_follows,
    lemma_collapse_removes_descendants, lemma_expand_keeps, lemma_parent_shown, lemma_rows_below,
    lemma_rows_widen, outside, shows, Visible,
};

verus! {

/// `i` is the first row with the path `path`.
pub open spec fn is_first_at(rows: Seq<Visible>, path: Path, i: int) -> bool {
    &&& 0 <= i < rows.len()
    &&& rows[i].path == path
    &&& forall|j: int| 0 <= j < i ==> (#[trigger] rows[j]).path != path
}

/// The index of the first row with the path `path`, if there is one.
pub open spec fn position(rows: Seq<Visible>, path: Path) -> Option<int> {
    if exists|i: int| is_first_at(rows, path, i) {
        Some(choose|i: int| is_first_at(rows, path, i))
    } else {
        None
    }
}

/// The first row with a path is where `position` finds it.
pub proof fn lemma_position_found(rows: Seq<Visible>, path: Path, i: int)
    requires
        is_first_at(rows, path, i),
    ensures
        position(rows, path) == Some(i),
{
    let k = choose|k: int| is_first_at(rows, path, k);
    assert(k == i) by {
        if k < i {
            assert(rows[k].path != path);
        }
        if i < k {
            assert(rows[i].path != path);
        }
    }
}

/// `position` finds nothing exactly when no row has the path.
pub proof fn lemma_position_none(rows: Seq<Visible>, path: Path)
    requires
        !shows(rows, path),
    ensures
        position(rows, path) is None,
{
    if exists|i: int| is_first_at(rows, path, i) {
        let i = choose|i: int| is_first_at(rows, path, i);
        assert(rows[i].path == path);
    }
}

/// A path that some row has is found by `position`, at its first row.
pub proof fn lemma_position_shown(rows: Seq<Visible>, path: Path)
    requires
        shows(rows, path),
    ensures
        position(rows, path) matches Some(i) && is_first_at(rows, path, i),
    decreases rows.len(),
{
    let k = choose|k: int| 0 <= k < rows.len() && #[trigger] rows[k].path == path;
    let shorter = rows.take(k);
    if shows(shorter, path) {
        lemma_position_shown(shorter, path);
        let i = position(shorter, path)->Some_0;
        assert(is_first_at(rows, path, i)) by {
            assert(rows[i] == shorter[i]);
            assert forall|j: int| 0 <= j < i implies (#[trigger] rows[j]).path != path by {
                assert(rows[j] == shorter[j]);
            }
        }
        lemma_position_found(rows, path, i);
    } else {
        assert(is_first_at(rows, path, k)) by {
            assert forall|j: int| 0 <= j < k implies (#[trigger] rows[j]).path != path by {
                assert(shorter[j] == rows[j]);
            }
        }
        lemma_position_found(rows, path, k);
    }
}

/// The greatest scroll offset for `count` rows in a viewport of `height`.
pub open spec fn max_offset(count: nat, height: nat) -> nat {
    if count > height {
        (count - height) as nat
    } else {
        0
    }
}

/// The number of rows that a viewport shows at least: one, also where its
/// height is given as zero.
pub open spec fn window(height: nat) -> nat {
    if height == 0 {
        1
    } else {
        height
    }
}

/// Whether the row `row` is among those that the viewport shows.
pub open spec fn in_view(offset: nat, row: nat, height: nat) -> bool {
    offset <= row < offset + window(height)
}

/// The scroll offset nearest to `offset` at which the row `row` is in view.
pub open spec fn brought_into_view(offset: nat, row: nat, height: nat) -> nat {
    if row < offset {
        row
    } else if row >= offset + window(height) {
        (row + 1 - window(height)) as nat
    } else {
        offset
    }
}

/// `offset` held between zero and the greatest offset for `count` rows.
pub open spec fn clamped(offset: int, count: nat, height: nat) -> nat {
    if offset < 0 {
        0
    } else if offset > max_offset(count, height) {
        max_offset(count, height)
    } else {
        offset as nat
    }
}

/// Whether `path` leads to a node of the document that has children.
pub open spec fn is_container(items: Seq<Tree>, path: Path) -> bool {
    exists|i: int|
        0 <= i < document_rows(items, Set::full()).len() && (#[trigger] document_rows(
            items,
            Set::full(),
        )[i]).path == path && document_rows(items, Set::full())[i].node.children.len() > 0
}

/// The path of a visible row whose node has children leads to a container.
pub proof fn lemma_row_is_container(items: Seq<Tree>, expanded: Set<Path>, i: int)
    requires
        0 <= i < document_rows(items, expanded).len(),
        document_rows(items, expanded)[i].node.children.len() > 0,
    ensures
        is_container(items, document_rows(items, expanded)[i].path),
{
    let everything = document_rows(items, Set::full());
    let row = document_rows(items, expanded)[i];
    lemma_rows_widen(items, Seq::empty(), expanded, Set::full(), i);
    let j = choose|j: int| 0 <= j < everything.len() && everything[j] == row;
    assert(everything[j].path == row.path);
}

/// The navigation state: the mathematical value of a `NavigationState`.
pub struct Navigation {
    /// The path of the highlighted row, if one is.
    pub cursor: Option<Path>,
    /// The paths of the nodes whose children are shown.
    pub expanded: Set<Path>,
    /// The index of the first row in the viewport.
    pub scroll_offset: nat,
    /// Whether the help overlay is shown.
    pub overlay_visible: bool,
}

impl Navigation {
    /// The state at startup: no cursor, nothing expanded, at the top, no
    /// overlay.
    pub open spec fn initial() -> Navigation {
        Navigation {
            cursor: None,
            expanded: Set::empty(),
            scroll_offset: 0,
            overlay_visible: false,
        }
    }

    /// The rows that are visible in this state.
    pub open spec fn rows(self, items: Seq<Tree>) -> Seq<Visible> {
        document_rows(items, self.expanded)
    }

    /// The cursor, where it is set, is the path of a visible row.
    pub open spec fn cursor_visible(self, items: Seq<Tree>) -> bool {
        self.cursor matches Some(path) ==> shows(self.rows(items), path)
    }

    /// Every expanded path leads to a node of the document that has
    /// children.
    pub open spec fn expanded_are_containers(self, items: Seq<Tree>) -> bool {
        forall|path: Path| #[trigger] self.expanded.contains(path) ==> is_container(items, path)
    }

    /// The state fits the document: the cursor is unset or on a visible row,
    /// and what is expanded is a container.
    pub open spec fn valid(self, items: Seq<Tree>) -> bool {
        self.cursor_visible(items) && self.expanded_are_containers(items)
    }

    /// The index of the row under the cursor.
    pub open spec fn cursor_row(self, items: Seq<Tree>) -> Option<int> {
        match self.cursor {
            Some(path) => position(self.rows(items), path),
            None => None,
        }
    }

    /// This state with the cursor on `path`.
    pub open spec fn with_cursor(self, cursor: Option<Path>) -> Navigation {
        Navigation { cursor, ..self }
    }

    /// This state with `expanded` as its expanded paths.
    pub open spec fn with_expanded(self, expanded: Set<Path>) -> Navigation {
        Navigation { expanded, ..self }
    }

    /// This state with `scroll_offset` as its scroll offset.
    pub open spec fn with_offset(self, scroll_offset: nat) -> Navigation {
        Navigation { scroll_offset, ..self }
    }

    /// This state with the cursor on the row `i`, scrolled so that the row
    /// is in view.
    pub open spec fn at_row(self, items: Seq<Tree>, height: nat, i: int) -> Navigation
        recommends
            0 <= i < self.rows(items).len(),
    {
        Navigation {
            cursor: Some(self.rows(items)[i].path),
            scroll_offset: brought_into_view(self.scroll_offset, i as nat, height),
            ..self
        }
    }

    /// This state with the cursor on `path`, scrolled so that its row, if it
    /// has one, is in view.
    pub open spec fn at_path(self, items: Seq<Tree>, height: nat, path: Path) -> Navigation {
        Navigation {
            cursor: Some(path),
            scroll_offset: match position(self.rows(items), path) {
                Some(i) => brought_into_view(self.scroll_offset, i as nat, height),
                None => self.scroll_offset,
            },
            ..self
        }
    }

    /// The state after the node under the cursor is toggled: a node with
    /// children is expanded if it was collapsed and collapsed if it was
    /// expanded; otherwise nothing changes.
    pub open spec fn toggled(self, items: Seq<Tree>) -> Navigation {
        match self.cursor_row(items) {
            Some(i) => {
                let row = self.rows(items)[i];
                if row.node.children.len() == 0 {
                    self
                } else if self.expanded.contains(row.path) {
                    self.with_expanded(self.expanded.remove(row.path))
                } else {
                    self.with_expanded(self.expanded.insert(row.path))
                }
            },
            None => self,
        }
    }

    /// The state after a move to the left: an expanded node with children
    /// under the cursor is collapsed; otherwise the cursor goes to the
    /// parent, and stays where it is at the top level.
    pub open spec fn moved_left(self, items: Seq<Tree>, height: nat) -> Navigation {
        match self.cursor_row(items) {
            Some(i) => {
                let row = self.rows(items)[i];
                if row.node.children.len() > 0 && self.expanded.contains(row.path) {
                    self.with_expanded(self.expanded.remove(row.path))
                } else if row.path.len() > 1 {
                    self.at_path(items, height, row.path.drop_last())
                } else {
                    self
                }
            },
            None => self,
        }
    }

    /// The state after a move to the right: a collapsed node with children
    /// under the cursor is expanded; an expanded one hands the cursor to its
    /// first child; a node without children changes nothing.
    pub open spec fn moved_right(self, items: Seq<Tree>, height: nat) -> Navigation {
        match self.cursor_row(items) {
            Some(i) => {
                let row = self.rows(items)[i];
                if row.node.children.len() == 0 {
                    self
                } else if !self.expanded.contains(row.path) {
                    self.with_expanded(self.expanded.insert(row.path))
                } else {
                    Navigation {
                        cursor: Some(first_child_row(row).path),
                        scroll_offset: brought_into_view(
                            self.scroll_offset,
                            (i + 1) as nat,
                            height,
                        ),
                        ..self
                    }
                }
            },
            None => self,
        }
    }

    /// The state after the first row is selected; without rows the cursor is
    /// unset.
    pub open spec fn first_selected(self, items: Seq<Tree>, height: nat) -> Navigation {
        if self.rows(items).len() > 0 {
            self.at_row(items, height, 0)
        } else {
            self.with_cursor(None)
        }
    }

    /// The state after the last row is selected; without rows the cursor is
    /// unset.
    pub open spec fn last_selected(self, items: Seq<Tree>, height: nat) -> Navigation {
        if self.rows(items).len() > 0 {
            self.at_row(items, height, self.rows(items).len() - 1)
        } else {
            self.with_cursor(None)
        }
    }

    /// The state after a move down: the cursor goes to the next row, and
    /// nothing changes where it is on the last one. Without a row under the
    /// cursor the first row is selected.
    pub open spec fn moved_down(self, items: Seq<Tree>, height: nat) -> Navigation {
        match self.cursor_row(items) {
            Some(i) => if i + 1 < self.rows(items).len() {
                self.at_row(items, height, i + 1)
            } else {
                self
            },
            None => self.first_selected(items, height),
        }
    }

    /// The state after a move up: the cursor goes to the row before, and
    /// nothing changes where it is on the first one. Without a row under the
    /// cursor the last row is selected.
    pub open spec fn moved_up(self, items: Seq<Tree>, height: nat) -> Navigation {
        match self.cursor_row(items) {
            Some(i) => if i > 0 {
                self.at_row(items, height, i - 1)
            } else {
                self
            },
            None => self.last_selected(items, height),
        }
    }

    /// The state after scrolling down by `lines` rows: the offset grows, up
    /// to the greatest offset for the visible rows.
    pub open spec fn scrolled_down(self, items: Seq<Tree>, lines: nat, height: nat) -> Navigation {
        self.with_offset(
            clamped((self.scroll_offset + lines) as int, self.rows(items).len(), height),
        )
    }

    /// The state after scrolling up by `lines` rows: the offset shrinks, down
    /// to zero.
    pub open spec fn scrolled_up(self, items: Seq<Tree>, lines: nat, height: nat) -> Navigation {
        self.with_offset(clamped(self.scroll_offset - lines, self.rows(items).len(), height))
    }

    /// The state after the overlay is toggled.
    pub open spec fn overlay_toggled(self) -> Navigation {
        Navigation { overlay_visible: !self.overlay_visible, ..self }
    }
}

/// A row in view after `brought_into_view` is in view.
pub proof fn lemma_brought_into_view(offset: nat, row: nat, height: nat)
    ensures
        in_view(brought_into_view(offset, row, height), row, height),
        in_view(offset, row, height) ==> brought_into_view(offset, row, height) == offset,
{
}

/// Where a filter keeps every row with the path `path`, the first such row
/// is the same before and after.
proof fn lemma_filter_keeps_first(
    rows: Seq<Visible>,
    keep: spec_fn(Visible) -> bool,
    path: Path,
    i: int,
)
    requires
        is_first_at(rows, path, i),
        forall|row: Visible| row.path == path ==> #[trigger] keep(row),
    ensures
        position(rows.filter(keep), path) matches Some(k) && rows.filter(keep)[k] == rows[i],
    decreases rows.len(),
{
    reveal(Seq::filter);
    let kept = rows.filter(keep);
    let before = rows.drop_last();
    if i == rows.len() - 1 {
        let k = before.filter(keep).len() as int;
        assert(kept == before.filter(keep).push(rows[i]));
        assert forall|j: int| 0 <= j < k implies (#[trigger] kept[j]).path != path by {
            assert(before.filter(keep).contains(kept[j]));
            before.lemma_filter_contains_rev(keep, kept[j]);
            let m = choose|m: int| 0 <= m < before.len() && before[m] == kept[j];
            assert(rows[m].path != path);
        }
        assert(is_first_at(kept, path, k));
        lemma_position_found(kept, path, k);
    } else {
        assert(is_first_at(before, path, i)) by {
            assert(before[i] == rows[i]);
            assert forall|j: int| 0 <= j < i implies (#[trigger] before[j]).path != path by {
                assert(before[j] == rows[j]);
            }
        }
        lemma_filter_keeps_first(before, keep, path, i);
        let k = position(before.filter(keep), path)->Some_0;
        lemma_position_shown_first(before.filter(keep), path, k);
        assert(is_first_at(kept, path, k)) by {
            assert(kept[k] == before.filter(keep)[k]);
            assert forall|j: int| 0 <= j < k implies (#[trigger] kept[j]).path != path by {
                assert(kept[j] == before.filter(keep)[j]);
            }
        }
        lemma_position_found(kept, path, k);
    }
}

/// What `position` finds is the first row with the path.
pub proof fn lemma_position_shown_first(rows: Seq<Visible>, path: Path, i: int)
    requires
        position(rows, path) == Some(i),
    ensures
        is_first_at(rows, path, i),
{
}

/// The row under the cursor holds the same node before and after that row's
/// path is added to or taken from the expanded paths.
proof fn lemma_toggle_keeps_row(items: Seq<Tree>, expanded: Set<Path>, path: Path, i: int)
    requires
        is_first_at(document_rows(items, expanded), path, i),
    ensures
        position(document_rows(items, expanded.remove(path)), path) matches Some(k)
            && document_rows(items, expanded.remove(path))[k] == document_rows(items, expanded)[i],
        position(document_rows(items, expanded.insert(path)), path) matches Some(k)
            && document_rows(items, expanded.insert(path))[k] == document_rows(items, expanded)[i],
{
    let rows = document_rows(items, expanded);
    lemma_rows_below(items, Seq::empty(), expanded);
    assert(below(rows[i].path, Seq::empty()));
    assert(path.len() > 0);
    assert forall|row: Visible| row.path == path implies #[trigger] outside(path)(row) by {}
    lemma_collapse_removes_descendants(items, expanded, path);
    lemma_filter_keeps_first(rows, outside(path), path, i);
    if expanded.contains(path) {
        assert(expanded.insert(path) =~= expanded);
        lemma_position_found(rows, path, i);
    } else {
        let wider = expanded.insert(path);
        let all = document_rows(items, wider);
        assert(wider.remove(path) =~= expanded);
        lemma_collapse_removes_descendants(items, wider, path);
        assert(shows(rows, path));
        lemma_expand_keeps(items, expanded, path, path);
        lemma_position_shown(all, path);
        let k = position(all, path)->Some_0;
        lemma_filter_keeps_first(all, outside(path), path, k);
        lemma_position_found(rows, path, i);
    }
}

/// A cursor that has a row is on a visible row.
pub proof fn lemma_cursor_row_visible(state: Navigation, items: Seq<Tree>)
    requires
        state.cursor_row(items) is Some,
    ensures
        state.cursor_visible(items),
{
    let i = state.cursor_row(items)->Some_0;
    assert(state.rows(items)[i].path == state.cursor->Some_0);
}

/// Toggling keeps a valid state valid, and toggling twice gives the state
/// back: the expanded paths are what they were.
pub proof fn lemma_toggle_twice(state: Navigation, items: Seq<Tree>)
    ensures
        state.valid(items) ==> state.toggled(items).valid(items),
        state.toggled(items).toggled(items) == state,
{
    match state.cursor_row(items) {
        Some(i) => {
            let rows = state.rows(items);
            let row = rows[i];
            let path = row.path;
            lemma_toggle_keeps_row(items, state.expanded, path, i);
            if row.node.children.len() > 0 {
                lemma_row_is_container(items, state.expanded, i);
                let next = state.toggled(items);
                let k = next.cursor_row(items)->Some_0;
                assert(next.rows(items)[k] == row);
                lemma_cursor_row_visible(next, items);
                if state.expanded.contains(path) {
                    assert(state.expanded.remove(path).insert(path) =~= state.expanded);
                } else {
                    assert(state.expanded.insert(path).remove(path) =~= state.expanded);
                }
            }
        },
        None => {},
    }
}

/// A move to the left keeps a valid state valid.
pub proof fn lemma_moved_left_valid(state: Navigation, items: Seq<Tree>, height: nat)
    requires
        state.valid(items),
    ensures
        state.moved_left(items, height).valid(items),
{
    match state.cursor_row(items) {
        Some(i) => {
            let rows = state.rows(items);
            let row = rows[i];
            if row.node.children.len() > 0 && state.expanded.contains(row.path) {
                lemma_toggle_keeps_row(items, state.expanded, row.path, i);
                lemma_cursor_row_visible(state.moved_left(items, height), items);
            } else if row.path.len() > 1 {
                lemma_parent_shown(items, Seq::empty(), state.expanded, i);
                assert(state.moved_left(items, height).expanded == state.expanded);
            }
        },
        None => {},
    }
}

/// The row after an expanded node with children is the row of its first
/// child.
pub proof fn lemma_first_child_follows(state: Navigation, items: Seq<Tree>, i: int)
    requires
        0 <= i < state.rows(items).len(),
        state.rows(items)[i].node.children.len() > 0,
        state.expanded.contains(state.rows(items)[i].path),
    ensures
        i + 1 < state.rows(items).len(),
        state.rows(items)[i + 1] == first_child_row(state.rows(items)[i]),
{
    lemma_child_follows(items, Seq::empty(), state.expanded, i);
}

/// A move to the right keeps a valid state valid.
pub proof fn lemma_moved_right_valid(state: Navigation, items: Seq<Tree>, height: nat)
    requires
        state.valid(items),
    ensures
        state.moved_right(items, height).valid(items),
{
    match state.cursor_row(items) {
        Some(i) => {
            let rows = state.rows(items);
            let row = rows[i];
            if row.node.children.len() > 0 {
                if !state.expanded.contains(row.path) {
                    lemma_toggle_keeps_row(items, state.expanded, row.path, i);
                    lemma_row_is_container(items, state.expanded, i);
                    lemma_cursor_row_visible(state.moved_right(items, height), items);
                } else {
                    lemma_first_child_follows(state, items, i);
                    assert(rows[i + 1].path == first_child_row(row).path);
                }
            }
        },
        None => {},
    }
}

/// After a move up or down, or a selection of the first or last row, the
/// cursor is unset or on a visible row, whatever the state was before, and
/// the expanded paths are what they were.
pub proof fn lemma_moves_valid(state: Navigation, items: Seq<Tree>, height: nat)
    ensures
        state.moved_down(items, height).cursor_visible(items),
        state.moved_up(items, height).cursor_visible(items),
        state.first_selected(items, height).cursor_visible(items),
        state.last_selected(items, height).cursor_visible(items),
        state.moved_down(items, height).expanded == state.expanded,
        state.moved_up(items, height).expanded == state.expanded,
        state.first_selected(items, height).expanded == state.expanded,
        state.last_selected(items, height).expanded == state.expanded,
{
    let rows = state.rows(items);
    if rows.len() > 0 {
        assert(rows[0].path == state.at_row(items, height, 0).cursor->Some_0);
        assert(rows[rows.len() - 1].path == state.at_row(
            items,
            height,
            rows.len() - 1,
        ).cursor->Some_0);
    }
    match state.cursor_row(items) {
        Some(i) => {
            lemma_cursor_row_visible(state, items);
            if i + 1 < rows.len() {
                assert(rows[i + 1].path == state.at_row(items, height, i + 1).cursor->Some_0);
            }
            if i > 0 {
                assert(rows[i - 1].path == state.at_row(items, height, i - 1).cursor->Some_0);
            }
        },
        None => {},
    }
}

/// A move down from the last row changes nothing, and neither does a move up
/// from the first row: the cursor does not wrap around.
pub proof fn lemma_moves_stop_at_ends(state: Navigation, items: Seq<Tree>, height: nat)
    ensures
        state.cursor_row(items) == Some(state.rows(items).len() - 1) ==> state.moved_down(
            items,
            height,
        ) == state,
        state.cursor_row(items) == Some(0int) ==> state.moved_up(items, height) == state,
{
}

/// After a move that sets the cursor on a row, that row is in view.
pub proof fn lemma_selected_row_in_view(state: Navigation, items: Seq<Tree>, height: nat, i: int)
    requires
        0 <= i < state.rows(items).len(),
    ensures
        in_view(state.at_row(items, height, i).scroll_offset, i as nat, height),
        state.at_row(items, height, i).rows(items) == state.rows(items),
{
}

} // verus!
