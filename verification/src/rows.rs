//! The visible rows of a tree: its nodes in depth-first order, with what
//! lies below a collapsed node left out.

use vstd::prelude::*;
use crate::address::Path;
use crate::node::Tree;

verus! {

/// A node that is shown, with the path that leads to it.
pub struct Visible {
    pub path: Path,
    pub node: Tree,
}

/// The rows that `node` contributes where its parent has the path `prefix`:
/// the node itself and, if its own path is expanded, the rows of its children.
pub open spec fn node_rows(node: Tree, prefix: Path, expanded: Set<Path>) -> Seq<Visible>
    decreases node,
{
    let path = prefix.push(node.address);
    let own = seq![Visible { path, node }];
    if expanded.contains(path) {
        own + visible_rows(node.children, path, expanded)
    } else {
        own
    }
}

/// The rows of the siblings `nodes`, whose parent has the path `prefix`: the
/// rows of each, one sibling after the other.
pub open spec fn visible_rows(nodes: Seq<Tree>, prefix: Path, expanded: Set<Path>) -> Seq<Visible>
    decreases nodes,
{
    if nodes.len() == 0 {
        Seq::empty()
    } else {
        visible_rows(nodes.drop_last(), prefix, expanded) + node_rows(
            nodes.last(),
            prefix,
            expanded,
        )
    }
}

/// The rows of a whole document.
pub open spec fn document_rows(items: Seq<Tree>, expanded: Set<Path>) -> Seq<Visible> {
    visible_rows(items, Seq::empty(), expanded)
}

/// `path` lies strictly below `ancestor`: it is longer and starts with it.
pub open spec fn below(path: Path, ancestor: Path) -> bool {
    ancestor.len() < path.len() && path.take(ancestor.len() as int) == ancestor
}

/// `path` is `ancestor` or lies below it.
pub open spec fn within(path: Path, ancestor: Path) -> bool {
    ancestor.len() <= path.len() && path.take(ancestor.len() as int) == ancestor
}

/// Whether some row has the path `path`.
pub open spec fn shows(rows: Seq<Visible>, path: Path) -> bool {
    exists|i: int| 0 <= i < rows.len() && #[trigger] rows[i].path == path
}

/// The rows of siblings grow by the rows of the next sibling.
pub proof fn lemma_rows_step(nodes: Seq<Tree>, prefix: Path, expanded: Set<Path>, i: int)
    requires
        0 <= i < nodes.len(),
    ensures
        visible_rows(nodes.take(i + 1), prefix, expanded) == visible_rows(
            nodes.take(i),
            prefix,
            expanded,
        ) + node_rows(nodes[i], prefix, expanded),
{
    assert(nodes.take(i + 1).drop_last() =~= nodes.take(i));
    assert(nodes.take(i + 1).last() == nodes[i]);
}

/// Every row of a node lies below the path of the node's parent.
pub proof fn lemma_node_rows_below(node: Tree, prefix: Path, expanded: Set<Path>)
    ensures
        forall|i: int|
            0 <= i < node_rows(node, prefix, expanded).len() ==> below(
                #[trigger] node_rows(node, prefix, expanded)[i].path,
                prefix,
            ),
    decreases node,
{
    let path = prefix.push(node.address);
    assert(path.take(prefix.len() as int) =~= prefix);
    if expanded.contains(path) {
        lemma_rows_below(node.children, path, expanded);
        let inner = visible_rows(node.children, path, expanded);
        assert forall|i: int| 0 <= i < node_rows(node, prefix, expanded).len() implies below(
            #[trigger] node_rows(node, prefix, expanded)[i].path,
            prefix,
        ) by {
            if i > 0 {
                let q = inner[i - 1].path;
                assert(below(q, path));
                assert(q.take(prefix.len() as int) =~= q.take(path.len() as int).take(
                    prefix.len() as int,
                ));
            }
        }
    }
}

/// Every row of siblings lies below the path of their parent.
pub proof fn lemma_rows_below(nodes: Seq<Tree>, prefix: Path, expanded: Set<Path>)
    ensures
        forall|i: int|
            0 <= i < visible_rows(nodes, prefix, expanded).len() ==> below(
                #[trigger] visible_rows(nodes, prefix, expanded)[i].path,
                prefix,
            ),
    decreases nodes,
{
    if nodes.len() > 0 {
        lemma_rows_below(nodes.drop_last(), prefix, expanded);
        lemma_node_rows_below(nodes.last(), prefix, expanded);
    }
}

/// The rows that are kept when `collapsed` is collapsed: those that do not
/// lie below it.
pub open spec fn outside(collapsed: Path) -> spec_fn(Visible) -> bool {
    |row: Visible| !below(row.path, collapsed)
}

proof fn lemma_filter_nothing(rows: Seq<Visible>, keep: spec_fn(Visible) -> bool)
    requires
        forall|i: int| 0 <= i < rows.len() ==> !keep(#[trigger] rows[i]),
    ensures
        rows.filter(keep) == Seq::<Visible>::empty(),
    decreases rows.len(),
{
    reveal(Seq::filter);
    if rows.len() > 0 {
        lemma_filter_nothing(rows.drop_last(), keep);
    }
}

proof fn lemma_filter_one(row: Visible, keep: spec_fn(Visible) -> bool)
    ensures
        seq![row].filter(keep) == if keep(row) {
            seq![row]
        } else {
            Seq::<Visible>::empty()
        },
{
    reveal_with_fuel(Seq::filter, 2);
    assert(seq![row].drop_last() =~= Seq::<Visible>::empty());
    assert(Seq::<Visible>::empty().push(row) =~= seq![row]);
}

/// Collapsing a path removes from the rows of a node exactly those that lie
/// below the path, and keeps the others in their order.
pub proof fn lemma_collapse_node(node: Tree, prefix: Path, expanded: Set<Path>, collapsed: Path)
    requires
        !within(prefix, collapsed),
    ensures
        node_rows(node, prefix, expanded.remove(collapsed)) == node_rows(
            node,
            prefix,
            expanded,
        ).filter(outside(collapsed)),
    decreases node,
{
    let keep = outside(collapsed);
    let path = prefix.push(node.address);
    let own = Visible { path, node };
    let inner = visible_rows(node.children, path, expanded);
    assert(path.take(prefix.len() as int) =~= prefix);
    assert(!below(path, collapsed)) by {
        if below(path, collapsed) {
            assert(prefix.take(collapsed.len() as int) =~= path.take(collapsed.len() as int));
        }
    }
    lemma_filter_one(own, keep);
    if expanded.contains(path) {
        Seq::filter_distributes_over_add(seq![own], inner, keep);
        if path == collapsed {
            lemma_rows_below(node.children, path, expanded);
            lemma_filter_nothing(inner, keep);
            assert(seq![own] + Seq::<Visible>::empty() =~= seq![own]);
        } else {
            assert(!within(path, collapsed)) by {
                if within(path, collapsed) {
                    if collapsed.len() == path.len() {
                        assert(path.take(collapsed.len() as int) =~= path);
                    } else {
                        assert(prefix.take(collapsed.len() as int) =~= path.take(
                            collapsed.len() as int,
                        ));
                    }
                }
            }
            lemma_collapse_forest(node.children, path, expanded, collapsed);
        }
    }
}

/// Collapsing a path removes from the rows of siblings exactly those that lie
/// below the path, and keeps the others in their order.
pub proof fn lemma_collapse_forest(
    nodes: Seq<Tree>,
    prefix: Path,
    expanded: Set<Path>,
    collapsed: Path,
)
    requires
        !within(prefix, collapsed),
    ensures
        visible_rows(nodes, prefix, expanded.remove(collapsed)) == visible_rows(
            nodes,
            prefix,
            expanded,
        ).filter(outside(collapsed)),
    decreases nodes,
{
    let keep = outside(collapsed);
    if nodes.len() == 0 {
        lemma_filter_nothing(Seq::<Visible>::empty(), keep);
    } else {
        lemma_collapse_forest(nodes.drop_last(), prefix, expanded, collapsed);
        lemma_collapse_node(nodes.last(), prefix, expanded, collapsed);
        Seq::filter_distributes_over_add(
            visible_rows(nodes.drop_last(), prefix, expanded),
            node_rows(nodes.last(), prefix, expanded),
            keep,
        );
    }
}

/// Collapsing a container of a document removes exactly the rows of its
/// descendants: the rows that remain are those that do not lie below it, in
/// the order they had.
pub proof fn lemma_collapse_removes_descendants(
    items: Seq<Tree>,
    expanded: Set<Path>,
    collapsed: Path,
)
    requires
        collapsed.len() > 0,
    ensures
        document_rows(items, expanded.remove(collapsed)) == document_rows(items, expanded).filter(
            outside(collapsed),
        ),
{
    lemma_collapse_forest(items, Seq::empty(), expanded, collapsed);
}

/// A path that is shown stays shown when another path is expanded.
pub proof fn lemma_expand_keeps(items: Seq<Tree>, expanded: Set<Path>, opened: Path, path: Path)
    requires
        opened.len() > 0,
        shows(document_rows(items, expanded), path),
    ensures
        shows(document_rows(items, expanded.insert(opened)), path),
{
    if expanded.contains(opened) {
        assert(expanded.insert(opened) =~= expanded);
    } else {
        let wider = expanded.insert(opened);
        assert(wider.remove(opened) =~= expanded);
        lemma_collapse_removes_descendants(items, wider, opened);
        let rows = document_rows(items, expanded);
        let all = document_rows(items, wider);
        let i = choose|i: int| 0 <= i < rows.len() && #[trigger] rows[i].path == path;
        assert(all.filter(outside(opened)).contains(rows[i]));
        all.lemma_filter_contains_rev(outside(opened), rows[i]);
        let j = choose|j: int| 0 <= j < all.len() && all[j] == rows[i];
        assert(all[j].path == path);
    }
}

/// Every row of a node is still a row of it when more paths are expanded.
pub proof fn lemma_node_rows_widen(
    node: Tree,
    prefix: Path,
    narrow: Set<Path>,
    wide: Set<Path>,
    i: int,
)
    requires
        narrow.subset_of(wide),
        0 <= i < node_rows(node, prefix, narrow).len(),
    ensures
        node_rows(node, prefix, wide).contains(node_rows(node, prefix, narrow)[i]),
    decreases node,
{
    let path = prefix.push(node.address);
    let more = node_rows(node, prefix, wide);
    if i == 0 {
        assert(more[0] == node_rows(node, prefix, narrow)[0]);
    } else {
        let inner = visible_rows(node.children, path, narrow);
        let inner_more = visible_rows(node.children, path, wide);
        lemma_rows_widen(node.children, path, narrow, wide, i - 1);
        let j = choose|j: int| 0 <= j < inner_more.len() && inner_more[j] == inner[i - 1];
        assert(more[j + 1] == inner[i - 1]);
    }
}

/// Every row of siblings is still a row of them when more paths are
/// expanded.
pub proof fn lemma_rows_widen(
    nodes: Seq<Tree>,
    prefix: Path,
    narrow: Set<Path>,
    wide: Set<Path>,
    i: int,
)
    requires
        narrow.subset_of(wide),
        0 <= i < visible_rows(nodes, prefix, narrow).len(),
    ensures
        visible_rows(nodes, prefix, wide).contains(visible_rows(nodes, prefix, narrow)[i]),
    decreases nodes,
{
    let row = visible_rows(nodes, prefix, narrow)[i];
    let more = visible_rows(nodes, prefix, wide);
    let before = visible_rows(nodes.drop_last(), prefix, narrow);
    let before_more = visible_rows(nodes.drop_last(), prefix, wide);
    let after_more = node_rows(nodes.last(), prefix, wide);
    if i < before.len() {
        lemma_rows_widen(nodes.drop_last(), prefix, narrow, wide, i);
        let j = choose|j: int| 0 <= j < before_more.len() && before_more[j] == row;
        assert(more[j] == row);
    } else {
        lemma_node_rows_widen(nodes.last(), prefix, narrow, wide, i - before.len());
        let j = choose|j: int| 0 <= j < after_more.len() && after_more[j] == row;
        assert(more[before_more.len() + j] == row);
    }
}

/// The row of the first child of the node in `row`.
pub open spec fn first_child_row(row: Visible) -> Visible
    recommends
        row.node.children.len() > 0,
{
    Visible { path: row.path.push(row.node.children[0].address), node: row.node.children[0] }
}

/// The rows of a node begin with the node itself.
pub proof fn lemma_node_rows_first(node: Tree, prefix: Path, expanded: Set<Path>)
    ensures
        node_rows(node, prefix, expanded).len() > 0,
        node_rows(node, prefix, expanded)[0] == (Visible {
            path: prefix.push(node.address),
            node,
        }),
{
}

/// The rows of siblings begin with the first sibling.
pub proof fn lemma_rows_first(nodes: Seq<Tree>, prefix: Path, expanded: Set<Path>)
    requires
        nodes.len() > 0,
    ensures
        visible_rows(nodes, prefix, expanded).len() > 0,
        visible_rows(nodes, prefix, expanded)[0] == (Visible {
            path: prefix.push(nodes[0].address),
            node: nodes[0],
        }),
    decreases nodes.len(),
{
    lemma_node_rows_first(nodes.last(), prefix, expanded);
    if nodes.len() == 1 {
        assert(nodes.drop_last().len() == 0);
        assert(visible_rows(nodes.drop_last(), prefix, expanded).len() == 0);
    } else {
        lemma_rows_first(nodes.drop_last(), prefix, expanded);
    }
}

/// Among the rows of a node, the row after an expanded node with children
/// is the row of its first child.
pub proof fn lemma_node_child_follows(node: Tree, prefix: Path, expanded: Set<Path>, i: int)
    requires
        0 <= i < node_rows(node, prefix, expanded).len(),
        expanded.contains(node_rows(node, prefix, expanded)[i].path),
        node_rows(node, prefix, expanded)[i].node.children.len() > 0,
    ensures
        i + 1 < node_rows(node, prefix, expanded).len(),
        node_rows(node, prefix, expanded)[i + 1] == first_child_row(
            node_rows(node, prefix, expanded)[i],
        ),
    decreases node,
{
    let path = prefix.push(node.address);
    if i == 0 {
        lemma_rows_first(node.children, path, expanded);
    } else {
        lemma_child_follows(node.children, path, expanded, i - 1);
    }
}

/// Among the rows of siblings, the row after an expanded node with children
/// is the row of its first child.
pub proof fn lemma_child_follows(nodes: Seq<Tree>, prefix: Path, expanded: Set<Path>, i: int)
    requires
        0 <= i < visible_rows(nodes, prefix, expanded).len(),
        expanded.contains(visible_rows(nodes, prefix, expanded)[i].path),
        visible_rows(nodes, prefix, expanded)[i].node.children.len() > 0,
    ensures
        i + 1 < visible_rows(nodes, prefix, expanded).len(),
        visible_rows(nodes, prefix, expanded)[i + 1] == first_child_row(
            visible_rows(nodes, prefix, expanded)[i],
        ),
    decreases nodes,
{
    let before = visible_rows(nodes.drop_last(), prefix, expanded);
    if i < before.len() {
        lemma_child_follows(nodes.drop_last(), prefix, expanded, i);
    } else {
        lemma_node_child_follows(nodes.last(), prefix, expanded, i - before.len());
    }
}

/// Among the rows of a node, the parent of a row that lies deeper than the
/// node itself is shown too.
pub proof fn lemma_node_parent_shown(node: Tree, prefix: Path, expanded: Set<Path>, i: int)
    requires
        0 <= i < node_rows(node, prefix, expanded).len(),
        node_rows(node, prefix, expanded)[i].path.len() > prefix.len() + 1,
    ensures
        shows(
            node_rows(node, prefix, expanded),
            node_rows(node, prefix, expanded)[i].path.drop_last(),
        ),
    decreases node,
{
    let rows = node_rows(node, prefix, expanded);
    let path = prefix.push(node.address);
    let inner = visible_rows(node.children, path, expanded);
    let deep = rows[i].path;
    assert(i > 0);
    assert(rows[i] == inner[i - 1]);
    lemma_rows_below(node.children, path, expanded);
    assert(below(inner[i - 1].path, path));
    if deep.len() > path.len() + 1 {
        lemma_parent_shown(node.children, path, expanded, i - 1);
        let j = choose|j: int| 0 <= j < inner.len() && #[trigger] inner[j].path == deep.drop_last();
        assert(rows[j + 1].path == deep.drop_last());
    } else {
        assert(deep.drop_last() =~= deep.take(path.len() as int));
        assert(rows[0].path == deep.drop_last());
    }
}

/// Among the rows of siblings, the parent of a row that lies deeper than the
/// siblings themselves is shown too.
pub proof fn lemma_parent_shown(nodes: Seq<Tree>, prefix: Path, expanded: Set<Path>, i: int)
    requires
        0 <= i < visible_rows(nodes, prefix, expanded).len(),
        visible_rows(nodes, prefix, expanded)[i].path.len() > prefix.len() + 1,
    ensures
        shows(
            visible_rows(nodes, prefix, expanded),
            visible_rows(nodes, prefix, expanded)[i].path.drop_last(),
        ),
    decreases nodes,
{
    let rows = visible_rows(nodes, prefix, expanded);
    let before = visible_rows(nodes.drop_last(), prefix, expanded);
    let after = node_rows(nodes.last(), prefix, expanded);
    let parent = rows[i].path.drop_last();
    if i < before.len() {
        lemma_parent_shown(nodes.drop_last(), prefix, expanded, i);
        let j = choose|j: int| 0 <= j < before.len() && #[trigger] before[j].path == parent;
        assert(rows[j].path == parent);
    } else {
        lemma_node_parent_shown(nodes.last(), prefix, expanded, i - before.len());
        let j = choose|j: int| 0 <= j < after.len() && #[trigger] after[j].path == parent;
        assert(rows[before.len() + j].path == parent);
    }
}

} // verus!
