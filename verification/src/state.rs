//! The navigation state that a viewer keeps over a document, and the
//! operations that user input performs on it.

use vstd::prelude::*;
use crate::address::{copy_path, path_of, same_path, JsonPointer, Path};
use crate::navigation::{
    brought_into_view, is_first_at, lemma_first_child_follows, lemma_moved_left_valid,
    lemma_moved_right_valid, lemma_moves_valid, lemma_position_found, lemma_position_none,
    lemma_toggle_twice, position, Navigation,
};
use crate::node::{forest_of, lemma_node_view, Node, Tree};
use crate::rows::{lemma_rows_step, node_rows, visible_rows, Visible};

verus! {

/// The mathematical value of a [`Row`].
pub struct RowView {
    pub path: Path,
    pub label: Seq<char>,
    pub selected: bool,
    pub expandable: bool,
    pub expanded: bool,
}

/// One visible row, as a renderer needs it.
#[derive(Debug)]
pub struct Row {
    /// The path of the row's node.
    pub path: Vec<JsonPointer>,
    /// The text of the row.
    pub label: String,
    /// Whether the cursor is on this row.
    pub selected: bool,
    /// Whether the node has children.
    pub expandable: bool,
    /// Whether the node's path is expanded.
    pub expanded: bool,
}

impl View for Row {
    type V = RowView;

    open spec fn view(&self) -> RowView {
        RowView {
            path: path_of(self.path@),
            label: self.label@,
            selected: self.selected,
            expandable: self.expandable,
            expanded: self.expanded,
        }
    }
}

/// The views of a sequence of rows.
pub open spec fn rows_of(rows: Seq<Row>) -> Seq<RowView> {
    Seq::new(rows.len(), |i: int| rows[i]@)
}

/// What is shown of a visible node in the state `state`.
pub open spec fn rendered_row(row: Visible, state: Navigation) -> RowView {
    RowView {
        path: row.path,
        label: row.node.label,
        selected: state.cursor == Some(row.path),
        expandable: row.node.children.len() > 0,
        expanded: state.expanded.contains(row.path),
    }
}

/// What is shown of the visible nodes `rows` in the state `state`.
pub open spec fn rendered(rows: Seq<Visible>, state: Navigation) -> Seq<RowView> {
    Seq::new(rows.len(), |i: int| rendered_row(rows[i], state))
}

/// What a renderer paints: the visible rows, the index of the first row in
/// the viewport, and whether the overlay is shown.
#[derive(Debug)]
pub struct Screen {
    pub rows: Vec<Row>,
    pub scroll_offset: usize,
    pub overlay_visible: bool,
}

/// The set of the paths in `paths`.
pub open spec fn path_set(paths: Seq<Vec<JsonPointer>>) -> Set<Path> {
    Set::new(|path: Path| exists|i: int| 0 <= i < paths.len() && path_of(paths[i]@) == path)
}

/// The view of a cursor.
pub open spec fn cursor_of(cursor: Option<Vec<JsonPointer>>) -> Option<Path> {
    match cursor {
        Some(path) => Some(path_of(path@)),
        None => None,
    }
}

/// The navigation state: the cursor, the expanded paths, the scroll offset
/// and whether the overlay is shown.
#[derive(Debug)]
pub struct NavigationState {
    cursor: Option<Vec<JsonPointer>>,
    expanded: Vec<Vec<JsonPointer>>,
    scroll_offset: usize,
    overlay_visible: bool,
}

impl View for NavigationState {
    type V = Navigation;

    closed spec fn view(&self) -> Navigation {
        Navigation {
            cursor: cursor_of(self.cursor),
            expanded: path_set(self.expanded@),
            scroll_offset: self.scroll_offset as nat,
            overlay_visible: self.overlay_visible,
        }
    }
}

impl Default for NavigationState {
    fn default() -> (state: NavigationState)
        ensures
            state@ == Navigation::initial(),
    {
        NavigationState::new()
    }
}

/// The scroll offset nearest to `offset` at which the row `row` is in view.
fn bring_into_view(offset: usize, row: usize, height: usize) -> (moved: usize)
    ensures
        moved == brought_into_view(offset as nat, row as nat, height as nat),
{
    let shown: usize = if height == 0 {
        1
    } else {
        height
    };
    if row < offset {
        row
    } else if row - offset >= shown {
        row - shown + 1
    } else {
        offset
    }
}

/// The index of the first of `rows` with the path `path`.
fn find_row(rows: &Vec<Row>, path: &Vec<JsonPointer>) -> (found: Option<usize>)
    ensures
        match found {
            Some(i) => {
                &&& i < rows.len()
                &&& path_of(rows@[i as int].path@) == path_of(path@)
                &&& forall|j: int| 0 <= j < i ==> path_of((#[trigger] rows@[j]).path@) != path_of(path@)
            },
            None => forall|j: int|
                0 <= j < rows.len() ==> path_of((#[trigger] rows@[j]).path@) != path_of(path@),
        },
{
    let mut i: usize = 0;
    while i < rows.len()
        invariant
            i <= rows.len(),
            forall|j: int| 0 <= j < i ==> path_of((#[trigger] rows@[j]).path@) != path_of(path@),
        decreases rows.len() - i,
    {
        if same_path(&rows[i].path, path) {
            return Some(i);
        }
        i += 1;
    }
    None
}

/// The set of paths grows by the path that is pushed.
proof fn lemma_path_set_push(paths: Seq<Vec<JsonPointer>>, path: Vec<JsonPointer>)
    ensures
        path_set(paths.push(path)) == path_set(paths).insert(path_of(path@)),
{
    let longer = paths.push(path);
    assert forall|other: Path|
        path_set(longer).contains(other) == path_set(paths).insert(path_of(path@)).contains(
            other,
        ) by {
        if path_set(longer).contains(other) {
            let i = choose|i: int| 0 <= i < longer.len() && path_of(longer[i]@) == other;
            if i < paths.len() {
                assert(path_of(paths[i]@) == other);
            }
        }
        if path_set(paths).contains(other) {
            let i = choose|i: int| 0 <= i < paths.len() && path_of(paths[i]@) == other;
            assert(path_of(longer[i]@) == other);
        }
        if other == path_of(path@) {
            assert(path_of(longer[paths.len() as int]@) == other);
        }
    }
    assert(path_set(longer) =~= path_set(paths).insert(path_of(path@)));
}

/// Rendered rows are as many as the visible nodes, and each shows its node.
proof fn lemma_rendered(rows: Seq<Row>, visible: Seq<Visible>, state: Navigation)
    requires
        rows_of(rows) == rendered(visible, state),
    ensures
        rows.len() == visible.len(),
        forall|j: int| 0 <= j < rows.len() ==> (#[trigger] rows[j])@ == rendered_row(visible[j], state),
{
    assert(rows_of(rows).len() == rows.len());
    assert(rendered(visible, state).len() == visible.len());
    assert forall|j: int| 0 <= j < rows.len() implies (#[trigger] rows[j])@ == rendered_row(
        visible[j],
        state,
    ) by {
        assert(rows_of(rows)[j] == rows[j]@);
        assert(rendered(visible, state)[j] == rendered_row(visible[j], state));
    }
}

/// What `find_row` returns for the rendered rows is what `position` finds
/// among the visible nodes.
proof fn lemma_found(
    rows: Seq<Row>,
    visible: Seq<Visible>,
    state: Navigation,
    path: Path,
    found: Option<usize>,
)
    requires
        rows_of(rows) == rendered(visible, state),
        match found {
            Some(i) => {
                &&& i < rows.len()
                &&& path_of(rows[i as int].path@) == path
                &&& forall|j: int| 0 <= j < i ==> path_of((#[trigger] rows[j]).path@) != path
            },
            None => forall|j: int| 0 <= j < rows.len() ==> path_of((#[trigger] rows[j]).path@) != path,
        },
    ensures
        match found {
            Some(i) => position(visible, path) == Some(i as int),
            None => position(visible, path) is None,
        },
{
    lemma_rendered(rows, visible, state);
    assert forall|j: int| 0 <= j < rows.len() implies path_of(rows[j].path@) == (
    #[trigger] visible[j]).path by {
        assert(rows[j]@ == rendered_row(visible[j], state));
    }
    match found {
        Some(i) => {
            assert(is_first_at(visible, path, i as int));
            lemma_position_found(visible, path, i as int);
        },
        None => {
            lemma_position_none(visible, path);
        },
    }
}

impl NavigationState {
    /// The state at startup.
    pub fn new() -> (state: NavigationState)
        ensures
            state@ == Navigation::initial(),
    {
        let state = NavigationState {
            cursor: None,
            expanded: Vec::new(),
            scroll_offset: 0,
            overlay_visible: false,
        };
        assert(path_set(state.expanded@) =~= Set::empty());
        state
    }

    /// The path under the cursor, if the cursor is set.
    pub fn cursor(&self) -> (cursor: Option<Vec<JsonPointer>>)
        ensures
            cursor_of(cursor) == self@.cursor,
    {
        match &self.cursor {
            Some(path) => Some(copy_path(path)),
            None => None,
        }
    }

    /// The index of the first row in the viewport.
    pub fn scroll_offset(&self) -> (offset: usize)
        ensures
            offset == self@.scroll_offset,
    {
        self.scroll_offset
    }

    /// Whether the overlay is shown.
    pub fn overlay_visible(&self) -> (visible: bool)
        ensures
            visible == self@.overlay_visible,
    {
        self.overlay_visible
    }

    /// The expanded paths, each once or more often, in no particular order.
    pub fn expanded_paths(&self) -> (paths: Vec<Vec<JsonPointer>>)
        ensures
            path_set(paths@) == self@.expanded,
    {
        let mut paths: Vec<Vec<JsonPointer>> = Vec::new();
        let mut i: usize = 0;
        assert(path_set(paths@) =~= path_set(self.expanded@.take(0)));
        while i < self.expanded.len()
            invariant
                i <= self.expanded.len(),
                path_set(paths@) == path_set(self.expanded@.take(i as int)),
            decreases self.expanded.len() - i,
        {
            let copy = copy_path(&self.expanded[i]);
            proof {
                lemma_path_set_push(paths@, copy);
                lemma_path_set_push(self.expanded@.take(i as int), self.expanded@[i as int]);
                assert(self.expanded@.take(i as int).push(self.expanded@[i as int])
                    =~= self.expanded@.take(i + 1));
            }
            paths.push(copy);
            i += 1;
        }
        assert(self.expanded@.take(self.expanded.len() as int) =~= self.expanded@);
        paths
    }

    /// Whether `path` is among the expanded paths.
    pub fn is_expanded(&self, path: &Vec<JsonPointer>) -> (expanded: bool)
        ensures
            expanded == self@.expanded.contains(path_of(path@)),
    {
        let mut i: usize = 0;
        while i < self.expanded.len()
            invariant
                i <= self.expanded.len(),
                forall|j: int| 0 <= j < i ==> path_of(self.expanded@[j]@) != path_of(path@),
            decreases self.expanded.len() - i,
        {
            if same_path(&self.expanded[i], path) {
                return true;
            }
            i += 1;
        }
        false
    }

    /// Whether the cursor is on `path`.
    pub fn is_selected(&self, path: &Vec<JsonPointer>) -> (selected: bool)
        ensures
            selected == (self@.cursor == Some(path_of(path@))),
    {
        match &self.cursor {
            Some(cursor) => same_path(cursor, path),
            None => false,
        }
    }

    /// Appends to `out` the rows of the siblings `nodes`, whose parent has
    /// the path `prefix`.
    fn collect_rows(&self, nodes: &Vec<Node>, prefix: &Vec<JsonPointer>, out: &mut Vec<Row>)
        ensures
            rows_of(final(out)@) == rows_of(old(out)@) + rendered(
                visible_rows(forest_of(nodes@), path_of(prefix@), self@.expanded),
                self@,
            ),
        decreases nodes,
    {
        let ghost before = rows_of(out@);
        let ghost forest = forest_of(nodes@);
        let ghost parent = path_of(prefix@);
        let ghost expanded = self@.expanded;
        let mut i: usize = 0;
        assert(forest.take(0) =~= Seq::empty());
        assert(rows_of(out@) =~= before + rendered(
            visible_rows(forest.take(0), parent, expanded),
            self@,
        ));
        while i < nodes.len()
            invariant
                i <= nodes.len(),
                forest == forest_of(nodes@),
                parent == path_of(prefix@),
                expanded == self@.expanded,
                rows_of(out@) == before + rendered(
                    visible_rows(forest.take(i as int), parent, expanded),
                    self@,
                ),
            decreases nodes.len() - i,
        {
            let node = &nodes[i];
            let mut path = copy_path(prefix);
            path.push(node.address.clone());
            let is_open = self.is_expanded(&path);
            let row = Row {
                path: copy_path(&path),
                label: node.label.clone(),
                selected: self.is_selected(&path),
                expandable: node.children.len() > 0,
                expanded: is_open,
            };
            let ghost so_far = rows_of(out@);
            let ghost shown = visible_rows(forest.take(i as int), parent, expanded);
            let ghost own = Visible { path: parent.push(node@.address), node: node@ };
            proof {
                lemma_node_view(*node);
                lemma_rows_step(forest, parent, expanded, i as int);
                assert(path_of(path@) =~= parent.push(node@.address));
                assert(row@ == rendered_row(own, self@));
            }
            out.push(row);
            assert(rows_of(out@) =~= so_far.push(row@));
            if is_open {
                let ghost middle = rows_of(out@);
                let ghost inner = visible_rows(node@.children, own.path, expanded);
                self.collect_rows(&node.children, &path, out);
                proof {
                    assert(node_rows(node@, parent, expanded) == seq![own] + inner);
                    assert(rows_of(out@) =~= before + rendered(
                        shown + (seq![own] + inner),
                        self@,
                    ));
                }
            } else {
                proof {
                    assert(node_rows(node@, parent, expanded) == seq![own]);
                    assert(rows_of(out@) =~= before + rendered(shown + seq![own], self@));
                }
            }
            i += 1;
        }
        assert(forest.take(nodes.len() as int) =~= forest);
    }

    /// What is to be painted of the document `items` in this state.
    pub fn screen(&self, items: &Vec<Node>) -> (screen: Screen)
        ensures
            rows_of(screen.rows@) == rendered(self@.rows(forest_of(items@)), self@),
            screen.scroll_offset == self@.scroll_offset,
            screen.overlay_visible == self@.overlay_visible,
    {
        Screen {
            rows: self.rows(items),
            scroll_offset: self.scroll_offset,
            overlay_visible: self.overlay_visible,
        }
    }

    /// The index of the row under the cursor among `rows`, the rows of the
    /// document `items`.
    fn cursor_index(&self, rows: &Vec<Row>, Ghost(items): Ghost<Seq<Tree>>) -> (found: Option<
        usize,
    >)
        requires
            rows_of(rows@) == rendered(self@.rows(items), self@),
        ensures
            match found {
                Some(i) => i < rows.len() && self@.cursor_row(items) == Some(i as int),
                None => self@.cursor_row(items) is None,
            },
    {
        match &self.cursor {
            Some(path) => {
                let found = find_row(rows, path);
                proof {
                    lemma_found(rows@, self@.rows(items), self@, path_of(path@), found);
                }
                found
            },
            None => None,
        }
    }

    /// Adds `path` to the expanded paths.
    fn expand(&mut self, path: &Vec<JsonPointer>)
        ensures
            final(self)@ == old(self)@.with_expanded(old(self)@.expanded.insert(path_of(path@))),
    {
        let copy = copy_path(path);
        proof {
            lemma_path_set_push(self.expanded@, copy);
        }
        self.expanded.push(copy);
    }

    /// Takes `path` from the expanded paths.
    fn collapse(&mut self, path: &Vec<JsonPointer>)
        ensures
            final(self)@ == old(self)@.with_expanded(old(self)@.expanded.remove(path_of(path@))),
    {
        let ghost before = self.expanded@;
        let ghost target = path_of(path@);
        let mut kept: Vec<Vec<JsonPointer>> = Vec::new();
        let mut i: usize = 0;
        assert(path_set(kept@) =~= path_set(before.take(0)).remove(target));
        while i < self.expanded.len()
            invariant
                i <= self.expanded.len(),
                self.expanded@ == before,
                target == path_of(path@),
                path_set(kept@) == path_set(before.take(i as int)).remove(target),
            decreases self.expanded.len() - i,
        {
            let ghost seen = path_set(before.take(i as int));
            proof {
                lemma_path_set_push(before.take(i as int), before[i as int]);
                assert(before.take(i as int).push(before[i as int]) =~= before.take(i + 1));
            }
            if !same_path(&self.expanded[i], path) {
                let copy = copy_path(&self.expanded[i]);
                proof {
                    lemma_path_set_push(kept@, copy);
                    assert(seen.remove(target).insert(path_of(copy@)) =~= seen.insert(
                        path_of(copy@),
                    ).remove(target));
                }
                kept.push(copy);
            } else {
                assert(seen.remove(target) =~= seen.insert(target).remove(target));
            }
            i += 1;
        }
        assert(before.take(before.len() as int) =~= before);
        self.expanded = kept;
    }

    /// Sets the cursor on the row `i` of `rows`, the rows of the document
    /// `items`, and scrolls so that the row is in view.
    fn select_row(
        &mut self,
        rows: &Vec<Row>,
        i: usize,
        viewport_height: usize,
        Ghost(items): Ghost<Seq<Tree>>,
    )
        requires
            i < rows.len(),
            rows_of(rows@) == rendered(old(self)@.rows(items), old(self)@),
        ensures
            final(self)@ == old(self)@.at_row(items, viewport_height as nat, i as int),
    {
        proof {
            lemma_rendered(rows@, self@.rows(items), self@);
        }
        self.cursor = Some(copy_path(&rows[i].path));
        self.scroll_offset = bring_into_view(self.scroll_offset, i, viewport_height);
    }

    /// Expands the node under the cursor if it is collapsed, and collapses
    /// it if it is expanded. Nothing changes where the node has no children
    /// or no row is under the cursor.
    pub fn toggle_selected(&mut self, items: &Vec<Node>)
        ensures
            final(self)@ == old(self)@.toggled(forest_of(items@)),
            old(self)@.valid(forest_of(items@)) ==> final(self)@.valid(forest_of(items@)),
    {
        let rows = self.rows(items);
        let ghost forest = forest_of(items@);
        if let Some(i) = self.cursor_index(&rows, Ghost(forest)) {
            proof {
                lemma_rendered(rows@, self@.rows(forest), self@);
            }
            if rows[i].expandable {
                if rows[i].expanded {
                    self.collapse(&rows[i].path);
                } else {
                    self.expand(&rows[i].path);
                }
            }
        }
        proof {
            lemma_toggle_twice(old(self)@, forest);
        }
    }

    /// Collapses the node under the cursor if it is expanded and has
    /// children; otherwise moves the cursor to the parent, and brings it into
    /// view. At the top level the cursor stays.
    pub fn move_left(&mut self, items: &Vec<Node>, viewport_height: usize)
        ensures
            final(self)@ == old(self)@.moved_left(forest_of(items@), viewport_height as nat),
            old(self)@.valid(forest_of(items@)) ==> final(self)@.valid(forest_of(items@)),
    {
        let rows = self.rows(items);
        let ghost forest = forest_of(items@);
        if let Some(i) = self.cursor_index(&rows, Ghost(forest)) {
            proof {
                lemma_rendered(rows@, self@.rows(forest), self@);
            }
            if rows[i].expandable && rows[i].expanded {
                self.collapse(&rows[i].path);
            } else if rows[i].path.len() > 1 {
                let mut parent = copy_path(&rows[i].path);
                parent.pop();
                assert(path_of(parent@) =~= path_of(rows@[i as int].path@).drop_last());
                let found = find_row(&rows, &parent);
                proof {
                    lemma_found(rows@, self@.rows(forest), self@, path_of(parent@), found);
                }
                if let Some(j) = found {
                    self.scroll_offset = bring_into_view(self.scroll_offset, j, viewport_height);
                }
                self.cursor = Some(parent);
            }
        }
        proof {
            if old(self)@.valid(forest) {
                lemma_moved_left_valid(old(self)@, forest, viewport_height as nat);
            }
        }
    }

    /// Expands the node under the cursor if it is collapsed and has
    /// children; if it is expanded, moves the cursor to its first child, and
    /// brings it into view. Nothing changes where the node has no children.
    pub fn move_right(&mut self, items: &Vec<Node>, viewport_height: usize)
        ensures
            final(self)@ == old(self)@.moved_right(forest_of(items@), viewport_height as nat),
            old(self)@.valid(forest_of(items@)) ==> final(self)@.valid(forest_of(items@)),
    {
        let rows = self.rows(items);
        let ghost forest = forest_of(items@);
        if let Some(i) = self.cursor_index(&rows, Ghost(forest)) {
            proof {
                lemma_rendered(rows@, self@.rows(forest), self@);
            }
            if rows[i].expandable {
                if !rows[i].expanded {
                    self.expand(&rows[i].path);
                } else {
                    proof {
                        lemma_first_child_follows(self@, forest, i as int);
                    }
                    self.select_row(&rows, i + 1, viewport_height, Ghost(forest));
                }
            }
        }
        proof {
            if old(self)@.valid(forest) {
                lemma_moved_right_valid(old(self)@, forest, viewport_height as nat);
            }
        }
    }

    /// Sets the cursor on the first row and brings it into view. Without
    /// rows the cursor is unset.
    pub fn select_first(&mut self, items: &Vec<Node>, viewport_height: usize)
        ensures
            final(self)@ == old(self)@.first_selected(forest_of(items@), viewport_height as nat),
            final(self)@.cursor_visible(forest_of(items@)),
            old(self)@.valid(forest_of(items@)) ==> final(self)@.valid(forest_of(items@)),
    {
        let rows = self.rows(items);
        let ghost forest = forest_of(items@);
        proof {
            lemma_rendered(rows@, self@.rows(forest), self@);
        }
        if rows.len() > 0 {
            self.select_row(&rows, 0, viewport_height, Ghost(forest));
        } else {
            self.cursor = None;
        }
        proof {
            lemma_moves_valid(old(self)@, forest, viewport_height as nat);
        }
    }

    /// Sets the cursor on the last row and brings it into view. Without rows
    /// the cursor is unset.
    pub fn select_last(&mut self, items: &Vec<Node>, viewport_height: usize)
        ensures
            final(self)@ == old(self)@.last_selected(forest_of(items@), viewport_height as nat),
            final(self)@.cursor_visible(forest_of(items@)),
            old(self)@.valid(forest_of(items@)) ==> final(self)@.valid(forest_of(items@)),
    {
        let rows = self.rows(items);
        let ghost forest = forest_of(items@);
        proof {
            lemma_rendered(rows@, self@.rows(forest), self@);
        }
        if rows.len() > 0 {
            self.select_row(&rows, rows.len() - 1, viewport_height, Ghost(forest));
        } else {
            self.cursor = None;
        }
        proof {
            lemma_moves_valid(old(self)@, forest, viewport_height as nat);
        }
    }

    /// Moves the cursor to the next row and brings it into view. On the last
    /// row nothing changes; without a row under the cursor the first row is
    /// selected.
    pub fn move_down(&mut self, items: &Vec<Node>, viewport_height: usize)
        ensures
            final(self)@ == old(self)@.moved_down(forest_of(items@), viewport_height as nat),
            final(self)@.cursor_visible(forest_of(items@)),
            old(self)@.valid(forest_of(items@)) ==> final(self)@.valid(forest_of(items@)),
    {
        let rows = self.rows(items);
        let ghost forest = forest_of(items@);
        proof {
            lemma_rendered(rows@, self@.rows(forest), self@);
        }
        match self.cursor_index(&rows, Ghost(forest)) {
            Some(i) => {
                if i + 1 < rows.len() {
                    self.select_row(&rows, i + 1, viewport_height, Ghost(forest));
                }
            },
            None => {
                if rows.len() > 0 {
                    self.select_row(&rows, 0, viewport_height, Ghost(forest));
                } else {
                    self.cursor = None;
                }
            },
        }
        proof {
            lemma_moves_valid(old(self)@, forest, viewport_height as nat);
        }
    }

    /// Moves the cursor to the row before and brings it into view. On the
    /// first row nothing changes; without a row under the cursor the last
    /// row is selected.
    pub fn move_up(&mut self, items: &Vec<Node>, viewport_height: usize)
        ensures
            final(self)@ == old(self)@.moved_up(forest_of(items@), viewport_height as nat),
            final(self)@.cursor_visible(forest_of(items@)),
            old(self)@.valid(forest_of(items@)) ==> final(self)@.valid(forest_of(items@)),
    {
        let rows = self.rows(items);
        let ghost forest = forest_of(items@);
        proof {
            lemma_rendered(rows@, self@.rows(forest), self@);
        }
        match self.cursor_index(&rows, Ghost(forest)) {
            Some(i) => {
                if i > 0 {
                    self.select_row(&rows, i - 1, viewport_height, Ghost(forest));
                }
            },
            None => {
                if rows.len() > 0 {
                    self.select_row(&rows, rows.len() - 1, viewport_height, Ghost(forest));
                } else {
                    self.cursor = None;
                }
            },
        }
        proof {
            lemma_moves_valid(old(self)@, forest, viewport_height as nat);
        }
    }

    /// Scrolls down by `lines` rows, no further than the last offset at
    /// which the viewport is full. The cursor stays.
    pub fn scroll_down(&mut self, items: &Vec<Node>, lines: usize, viewport_height: usize)
        ensures
            final(self)@ == old(self)@.scrolled_down(
                forest_of(items@),
                lines as nat,
                viewport_height as nat,
            ),
            old(self)@.valid(forest_of(items@)) ==> final(self)@.valid(forest_of(items@)),
    {
        let rows = self.rows(items);
        proof {
            lemma_rendered(rows@, self@.rows(forest_of(items@)), self@);
        }
        let count = rows.len();
        let limit: usize = if count > viewport_height {
            count - viewport_height
        } else {
            0
        };
        if self.scroll_offset >= limit || lines >= limit - self.scroll_offset {
            self.scroll_offset = limit;
        } else {
            self.scroll_offset = self.scroll_offset + lines;
        }
    }

    /// Scrolls up by `lines` rows, no further than the top. The cursor
    /// stays.
    pub fn scroll_up(&mut self, items: &Vec<Node>, lines: usize, viewport_height: usize)
        ensures
            final(self)@ == old(self)@.scrolled_up(
                forest_of(items@),
                lines as nat,
                viewport_height as nat,
            ),
            old(self)@.valid(forest_of(items@)) ==> final(self)@.valid(forest_of(items@)),
    {
        let rows = self.rows(items);
        proof {
            lemma_rendered(rows@, self@.rows(forest_of(items@)), self@);
        }
        let count = rows.len();
        let limit: usize = if count > viewport_height {
            count - viewport_height
        } else {
            0
        };
        let raised: usize = if lines >= self.scroll_offset {
            0
        } else {
            self.scroll_offset - lines
        };
        if raised > limit {
            self.scroll_offset = limit;
        } else {
            self.scroll_offset = raised;
        }
    }

    /// Shows the overlay if it is hidden, and hides it if it is shown.
    pub fn toggle_overlay(&mut self)
        ensures
            final(self)@ == old(self)@.overlay_toggled(),
    {
        self.overlay_visible = !self.overlay_visible;
    }

    /// The visible rows of the document `items`, in order.
    pub fn rows(&self, items: &Vec<Node>) -> (rows: Vec<Row>)
        ensures
            rows_of(rows@) == rendered(self@.rows(forest_of(items@)), self@),
    {
        let mut rows: Vec<Row> = Vec::new();
        let prefix: Vec<JsonPointer> = Vec::new();
        assert(path_of(prefix@) =~= Seq::empty());
        assert(rows_of(rows@) =~= Seq::empty());
        self.collect_rows(items, &prefix, &mut rows);
        assert(rows_of(rows@) =~= rendered(self@.rows(forest_of(items@)), self@));
        rows
    }
}

} // verus!
