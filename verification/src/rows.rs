//! The rows in which a repository's tree is shown.

use crate::text;
use crate::tree;
use crate::tree::{Node, NodeView};
use vstd::prelude::*;

verus! {

/// A row of the tree.
#[derive(Debug)]
pub struct Row {
    /// The way from the root to the node of the row.
    pub indices: Vec<usize>,
    /// The lines that lead to the row, except at the top.
    pub guide: Option<String>,
    pub folder: bool,
    pub expanded: bool,
    /// How many files at or below the node are selected.
    pub selected: usize,
    /// How many files there are at or below the node.
    pub total: usize,
    pub name: String,
    pub path: String,
    pub size: u64,
}

/// What a [`Row`] holds.
#[verifier::ext_equal]
pub struct RowView {
    pub indices: Seq<usize>,
    pub guide: Option<Seq<char>>,
    pub folder: bool,
    pub expanded: bool,
    pub selected: nat,
    pub total: nat,
    pub name: Seq<char>,
    pub path: Seq<char>,
    pub size: u64,
}

impl View for Row {
    type V = RowView;

    open spec fn view(&self) -> RowView {
        RowView {
            indices: self.indices@,
            guide: match self.guide {
                Some(guide) => Some(guide@),
                None => None,
            },
            folder: self.folder,
            expanded: self.expanded,
            selected: self.selected as nat,
            total: self.total as nat,
            name: self.name@,
            path: self.path@,
            size: self.size,
        }
    }
}

pub open spec fn row_views(rows: Seq<Row>) -> Seq<RowView> {
    rows.map_values(|row: Row| row@)
}

/// The lines past the folders on the way down: a folder that has a sibling below it goes on as a
/// line.
pub open spec fn guide_lines(has_next: Seq<bool>) -> Seq<char>
    decreases has_next.len(),
{
    if has_next.len() == 0 {
        Seq::empty()
    } else {
        guide_lines(has_next.drop_last()) + if has_next.last() {
            "\u{2502}   "@
        } else {
            "    "@
        }
    }
}

/// The lines that lead to a row. Rows at the top have none.
pub open spec fn guide_of(depth: nat, has_next: Seq<bool>, is_last: bool) -> Option<Seq<char>> {
    if depth == 0 {
        None
    } else {
        Some(
            guide_lines(has_next) + if is_last {
                "\u{2514}\u{2500}"@
            } else {
                "\u{251c}\u{2500}"@
            },
        )
    }
}

/// The row of a node.
pub open spec fn row_of(
    n: NodeView,
    indices: Seq<usize>,
    guide: Option<Seq<char>>,
) -> RowView {
    RowView {
        indices,
        guide,
        folder: n.file is None,
        expanded: n.expanded,
        selected: tree::selected_count(n),
        total: tree::file_count(n),
        name: n.name,
        path: n.path,
        size: n.size,
    }
}

/// Whether the folders on the way down have siblings below them, one level further down. The
/// folders at the top do not count.
pub open spec fn has_next_below(prefix: Seq<usize>, has_next: Seq<bool>, is_last: bool) -> Seq<bool> {
    if prefix.len() > 0 {
        has_next.push(!is_last)
    } else {
        has_next
    }
}

/// The rows of the first `count` of some siblings and of what is shown below them: a folder that
/// is open is followed by the rows of its children.
pub open spec fn rows_of(
    nodes: Seq<NodeView>,
    count: nat,
    prefix: Seq<usize>,
    has_next: Seq<bool>,
) -> Seq<RowView>
    decreases nodes, count,
{
    if count == 0 || count > nodes.len() {
        Seq::empty()
    } else {
        let i = count - 1;
        let n = nodes[i];
        let is_last = count == nodes.len();
        let indices = prefix.push(i as usize);
        let row = row_of(n, indices, guide_of(prefix.len(), has_next, is_last));
        rows_of(nodes, (count - 1) as nat, prefix, has_next).push(row) + if n.file is None
            && n.expanded {
            rows_of(
                n.children,
                n.children.len(),
                indices,
                has_next_below(prefix, has_next, is_last),
            )
        } else {
            Seq::empty()
        }
    }
}

/// The rows that a repository's tree is shown in. The root has no row of its own.
pub open spec fn tree_rows(root: NodeView) -> Seq<RowView> {
    rows_of(root.children, root.children.len(), Seq::empty(), Seq::empty())
}

fn guide_text(has_next: &Vec<bool>, is_last: bool) -> (guide: String)
    ensures
        guide_of(1, has_next@, is_last) == Some(guide@),
{
    let mut guide = String::new();
    let mut i: usize = 0;
    assert(guide@ == guide_lines(has_next@.take(0)));
    while i < has_next.len()
        invariant
            i <= has_next.len(),
            guide@ == guide_lines(has_next@.take(i as int)),
        decreases has_next.len() - i,
    {
        assert(has_next@.take(i + 1).drop_last() =~= has_next@.take(i as int));
        if has_next[i] {
            guide.append("\u{2502}   ");
        } else {
            guide.append("    ");
        }
        i += 1;
    }
    assert(has_next@.take(has_next.len() as int) =~= has_next@);
    if is_last {
        guide.append("\u{2514}\u{2500}");
    } else {
        guide.append("\u{251c}\u{2500}");
    }
    guide
}

proof fn lemma_file_count_at_most(nodes: Seq<NodeView>, i: int)
    requires
        0 <= i < nodes.len(),
    ensures
        tree::file_count(nodes[i]) <= tree::file_count_all(nodes),
    decreases nodes.len(),
{
    if i < nodes.len() - 1 {
        lemma_file_count_at_most(nodes.drop_last(), i);
    }
}

fn copied<T: Copy>(items: &Vec<T>) -> (r: Vec<T>)
    ensures
        r@ == items@,
{
    let mut r: Vec<T> = Vec::new();
    let mut i: usize = 0;
    while i < items.len()
        invariant
            i <= items.len(),
            r@ == items@.take(i as int),
        decreases items.len() - i,
    {
        r.push(items[i]);
        i += 1;
        assert(items@.take(i as int) =~= items@.take(i - 1).push(items@[i - 1]));
    }
    assert(items@.take(items.len() as int) =~= items@);
    r
}

fn add_rows(nodes: &Vec<Node>, prefix: &Vec<usize>, has_next: &Vec<bool>, rows: &mut Vec<Row>)
    requires
        tree::file_count_all(tree::node_views(nodes@)) <= usize::MAX,
    ensures
        row_views(final(rows)@) == row_views(old(rows)@) + rows_of(
            tree::node_views(nodes@),
            nodes@.len(),
            prefix@,
            has_next@,
        ),
    decreases *nodes,
{
    let ghost views = tree::node_views(nodes@);
    let ghost before = row_views(rows@);
    let mut i: usize = 0;
    assert(before + rows_of(views, 0, prefix@, has_next@) =~= before);
    while i < nodes.len()
        invariant
            views == tree::node_views(nodes@),
            tree::file_count_all(views) <= usize::MAX,
            i <= nodes.len(),
            row_views(rows@) == before + rows_of(views, i as nat, prefix@, has_next@),
        decreases nodes.len() - i,
    {
        let node = &nodes[i];
        let is_last = i + 1 == nodes.len();
        let mut indices = copied(prefix);
        indices.push(i);
        assert(views[i as int] == tree::node_view(*node));
        proof {
            lemma_file_count_at_most(views, i as int);
            tree::lemma_view_children(*node);
        }
        let (selected, total) = node.selection();
        let guide: Option<String> = if prefix.len() > 0 {
            Some(guide_text(has_next, is_last))
        } else {
            None
        };
        let ghost so_far = row_views(rows@);
        let ghost way = indices@;
        let row = Row {
            indices: copied(&indices),
            guide,
            folder: node.file.is_none(),
            expanded: node.expanded,
            selected,
            total,
            name: node.name.clone(),
            path: node.path.clone(),
            size: node.size,
        };
        let ghost shown = row@;
        rows.push(row);
        assert(shown == row_of(
            views[i as int],
            way,
            guide_of(prefix@.len(), has_next@, is_last),
        ));
        assert(row_views(rows@) =~= so_far.push(shown));
        if node.file.is_none() && node.expanded {
            let mut below = copied(has_next);
            if prefix.len() > 0 {
                below.push(!is_last);
            }
            assert(decreases_to!(*nodes => nodes@[i as int].children));
            add_rows(&node.children, &indices, &below, rows);
        }
        assert(row_views(rows@) =~= before + rows_of(views, (i + 1) as nat, prefix@, has_next@));
        i += 1;
    }
}

/// The rows that a repository's tree is shown in.
pub fn rows(root: &Node) -> (rows: Vec<Row>)
    requires
        tree::file_count_all(root@.children) <= usize::MAX,
    ensures
        row_views(rows@) == tree_rows(root@),
{
    let mut rows: Vec<Row> = Vec::new();
    let top: Vec<usize> = Vec::new();
    let none: Vec<bool> = Vec::new();
    proof {
        tree::lemma_view_children(*root);
    }
    add_rows(&root.children, &top, &none, &mut rows);
    assert(row_views(rows@) =~= tree_rows(root@));
    rows
}

/// How a row's check box shows: on when all its files are selected, and half on when some are and
/// some are not.
pub fn check_mark(selected: usize, total: usize) -> (r: (bool, bool))
    ensures
        r.0 == (selected == total),
        r.1 == (0 < selected < total),
{
    (selected == total, selected > 0 && selected < total)
}

/// The line that counts the selected files.
pub fn selection_label(selected: usize, total: usize) -> (label: String)
    ensures
        label@ == text::decimal(selected as nat) + " of "@ + text::decimal(total as nat)
            + " files selected"@,
{
    let mut label = text::decimal_text(selected as u64);
    label.append(" of ");
    label.append(text::decimal_text(total as u64).as_str());
    label.append(" files selected");
    label
}

/// Something can be downloaded when a file is selected.
pub fn can_download(selected: usize) -> (b: bool)
    ensures
        b == (selected > 0),
{
    selected > 0
}

/// The children of every node can be numbered.
pub open spec fn indexable(n: NodeView) -> bool
    decreases n,
{
    &&& n.children.len() <= usize::MAX
    &&& forall|i: int| 0 <= i < n.children.len() ==> indexable(#[trigger] n.children[i])
}

/// The children of a node are held in a vector, so they can be numbered in every tree.
proof fn lemma_trees_are_indexable(n: Node)
    ensures
        indexable(n@),
    decreases n,
{
    tree::lemma_view_children(n);
    assert(n.children@.len() == n.children.len());
    assert forall|i: int| 0 <= i < n@.children.len() implies indexable(#[trigger] n@.children[i]) by {
        assert(decreases_to!(n => n.children@[i]));
        lemma_trees_are_indexable(n.children@[i]);
    }
}

proof fn lemma_step_down(root: NodeView, prefix: Seq<usize>, i: usize)
    requires
        tree::has_node(root, prefix),
        i < tree::node_at(root, prefix).children.len(),
    ensures
        tree::has_node(root, prefix.push(i)),
        tree::node_at(root, prefix.push(i)) == tree::node_at(root, prefix).children[i as int],
    decreases prefix.len(),
{
    let way = prefix.push(i);
    if prefix.len() > 0 {
        assert(way.skip(1) =~= prefix.skip(1).push(i));
        lemma_step_down(root.children[prefix[0] as int], prefix.skip(1), i);
    } else {
        assert(way.skip(1) =~= Seq::<usize>::empty());
        assert(tree::has_node(root.children[i as int], way.skip(1)));
        assert(tree::node_at(root.children[i as int], way.skip(1)) == root.children[i as int]);
    }
}

/// The row shows the node that its indices lead to: whether it is a folder, whether it is open, how
/// many of its files are selected and how many there are, its name, its path and its size.
pub open spec fn shows_its_node(root: NodeView, row: RowView) -> bool {
    let n = tree::node_at(root, row.indices);
    &&& tree::has_node(root, row.indices)
    &&& row.folder == (n.file is None)
    &&& row.expanded == n.expanded
    &&& row.selected == tree::selected_count(n)
    &&& row.total == tree::file_count(n)
    &&& row.name == n.name
    &&& row.path == n.path
    &&& row.size == n.size
}

proof fn lemma_rows_show_nodes(
    root: NodeView,
    nodes: Seq<NodeView>,
    count: nat,
    prefix: Seq<usize>,
    has_next: Seq<bool>,
)
    requires
        tree::has_node(root, prefix),
        tree::node_at(root, prefix).children == nodes,
        indexable(tree::node_at(root, prefix)),
    ensures
        forall|k: int|
            0 <= k < rows_of(nodes, count, prefix, has_next).len() ==> shows_its_node(
                root,
                #[trigger] rows_of(nodes, count, prefix, has_next)[k],
            ),
    decreases nodes, count,
{
    if count > 0 && count <= nodes.len() {
        let i = count - 1;
        let n = nodes[i];
        let is_last = count == nodes.len();
        let indices = prefix.push(i as usize);
        let row = row_of(n, indices, guide_of(prefix.len(), has_next, is_last));
        let front = rows_of(nodes, (count - 1) as nat, prefix, has_next);
        lemma_rows_show_nodes(root, nodes, (count - 1) as nat, prefix, has_next);
        lemma_step_down(root, prefix, i as usize);
        assert(indexable(tree::node_at(root, prefix).children[i]));
        let below = has_next_below(prefix, has_next, is_last);
        lemma_rows_show_nodes(root, n.children, n.children.len(), indices, below);
        let back = if n.file is None && n.expanded {
            rows_of(n.children, n.children.len(), indices, below)
        } else {
            Seq::empty()
        };
        let all = rows_of(nodes, count, prefix, has_next);
        assert(all == front.push(row) + back);
        assert forall|k: int| 0 <= k < all.len() implies shows_its_node(root, #[trigger] all[k]) by {
            if k < front.len() {
                assert(all[k] == front[k]);
            } else if k == front.len() {
                assert(all[k] == row);
            } else {
                assert(all[k] == back[k - front.len() - 1]);
            }
        }
    }
}

/// Every row that is shown belongs to a node of the tree, and shows its name, its path, its size
/// and how many of its files are selected.
pub proof fn law_rows_show_nodes(root: Node)
    ensures
        forall|k: int|
            0 <= k < tree_rows(root@).len() ==> shows_its_node(
                root@,
                #[trigger] tree_rows(root@)[k],
            ),
{
    lemma_trees_are_indexable(root);
    lemma_rows_show_nodes(
        root@,
        root@.children,
        root@.children.len(),
        Seq::empty(),
        Seq::empty(),
    );
}

/// The way leads from some siblings to a node through folders that are all open.
pub open spec fn shown(nodes: Seq<NodeView>, way: Seq<usize>) -> bool
    decreases way.len(),
{
    &&& way.len() > 0
    &&& way[0] < nodes.len()
    &&& way.len() > 1 ==> {
        let n = nodes[way[0] as int];
        n.file is None && n.expanded && shown(n.children, way.skip(1))
    }
}

proof fn lemma_shown_has_row(
    nodes: Seq<NodeView>,
    count: nat,
    prefix: Seq<usize>,
    has_next: Seq<bool>,
    way: Seq<usize>,
)
    requires
        shown(nodes, way),
        way[0] < count <= nodes.len(),
    ensures
        exists|k: int|
            0 <= k < rows_of(nodes, count, prefix, has_next).len() && (#[trigger] rows_of(
                nodes,
                count,
                prefix,
                has_next,
            )[k]).indices == prefix + way,
    decreases way.len(), count,
{
    let all = rows_of(nodes, count, prefix, has_next);
    let front = rows_of(nodes, (count - 1) as nat, prefix, has_next);
    let i = count - 1;
    if way[0] < i {
        lemma_shown_has_row(nodes, (count - 1) as nat, prefix, has_next, way);
        let k = choose|k: int| 0 <= k < front.len() && (#[trigger] front[k]).indices == prefix + way;
        assert(all[k] == front[k]);
    } else if way.len() == 1 {
        assert(prefix.push(i as usize) =~= prefix + way);
        assert(all[front.len() as int].indices == prefix + way);
    } else {
        let n = nodes[i];
        let indices = prefix.push(i as usize);
        let below = has_next_below(prefix, has_next, count == nodes.len());
        let back = rows_of(n.children, n.children.len(), indices, below);
        assert(shown(n.children, way.skip(1)));
        lemma_shown_has_row(n.children, n.children.len(), indices, below, way.skip(1));
        let k = choose|k: int|
            0 <= k < back.len() && (#[trigger] back[k]).indices == indices + way.skip(1);
        assert(indices + way.skip(1) =~= prefix + way);
        assert(all[front.len() + 1 + k] == back[k]);
    }
}

/// The row lies below `prefix`, at one of the first `count` siblings or below it.
pub open spec fn row_below(
    nodes: Seq<NodeView>,
    count: nat,
    prefix: Seq<usize>,
    row: RowView,
) -> bool {
    let way = row.indices.skip(prefix.len() as int);
    &&& row.indices.len() > prefix.len()
    &&& row.indices == prefix + way
    &&& shown(nodes, way)
    &&& way[0] < count
}

/// `a` comes before `b` in a walk through the tree from top to bottom.
pub open spec fn comes_before(a: Seq<usize>, b: Seq<usize>) -> bool
    decreases a.len(),
{
    &&& b.len() > 0
    &&& a.len() > 0 ==> a[0] < b[0] || (a[0] == b[0] && comes_before(a.skip(1), b.skip(1)))
}

proof fn lemma_before_below(prefix: Seq<usize>, a: Seq<usize>, b: Seq<usize>)
    ensures
        comes_before(prefix + a, prefix + b) == comes_before(a, b),
    decreases prefix.len(),
{
    if prefix.len() == 0 {
        assert(prefix + a =~= a);
        assert(prefix + b =~= b);
    } else {
        lemma_before_below(prefix.skip(1), a, b);
        assert((prefix + a).skip(1) =~= prefix.skip(1) + a);
        assert((prefix + b).skip(1) =~= prefix.skip(1) + b);
    }
}

proof fn lemma_rows_are_shown(
    nodes: Seq<NodeView>,
    count: nat,
    prefix: Seq<usize>,
    has_next: Seq<bool>,
)
    requires
        nodes.len() <= usize::MAX,
        forall|i: int| 0 <= i < nodes.len() ==> indexable(#[trigger] nodes[i]),
    ensures
        forall|k: int|
            0 <= k < rows_of(nodes, count, prefix, has_next).len() ==> row_below(
                nodes,
                count,
                prefix,
                #[trigger] rows_of(nodes, count, prefix, has_next)[k],
            ),
        forall|j: int, k: int|
            0 <= j < k < rows_of(nodes, count, prefix, has_next).len() ==> comes_before(
                (#[trigger] rows_of(nodes, count, prefix, has_next)[j]).indices,
                (#[trigger] rows_of(nodes, count, prefix, has_next)[k]).indices,
            ),
    decreases nodes, count,
{
    if count > 0 && count <= nodes.len() {
        let i = count - 1;
        let n = nodes[i];
        let is_last = count == nodes.len();
        let indices = prefix.push(i as usize);
        let row = row_of(n, indices, guide_of(prefix.len(), has_next, is_last));
        let front = rows_of(nodes, (count - 1) as nat, prefix, has_next);
        let below = has_next_below(prefix, has_next, is_last);
        let open = n.file is None && n.expanded;
        let back = if open {
            rows_of(n.children, n.children.len(), indices, below)
        } else {
            Seq::empty()
        };
        let all = rows_of(nodes, count, prefix, has_next);
        assert(all == front.push(row) + back);
        assert(indexable(nodes[i]));
        lemma_rows_are_shown(nodes, (count - 1) as nat, prefix, has_next);
        lemma_rows_are_shown(n.children, n.children.len(), indices, below);
        let here = seq![i as usize];
        assert(indices =~= prefix + here);
        assert(indices.skip(prefix.len() as int) =~= here);
        assert forall|k: int| 0 <= k < back.len() implies row_below(
            nodes,
            count,
            prefix,
            #[trigger] back[k],
        ) && back[k].indices == prefix + (here + back[k].indices.skip(indices.len() as int)) && (
        here + back[k].indices.skip(indices.len() as int)).len() > 1 by {
            let rest = back[k].indices.skip(indices.len() as int);
            assert(row_below(n.children, n.children.len(), indices, back[k]));
            let way = back[k].indices.skip(prefix.len() as int);
            assert(way =~= here + rest);
            assert(way.skip(1) =~= rest);
            assert(back[k].indices =~= prefix + way);
        }
        assert forall|k: int| 0 <= k < all.len() implies row_below(
            nodes,
            count,
            prefix,
            #[trigger] all[k],
        ) by {
            if k < front.len() {
                assert(all[k] == front[k]);
                assert(row_below(nodes, (count - 1) as nat, prefix, front[k]));
            } else if k == front.len() {
                assert(all[k] == row);
            } else {
                assert(all[k] == back[k - front.len() - 1]);
            }
        }
        assert forall|j: int, k: int| 0 <= j < k < all.len() implies comes_before(
            (#[trigger] all[j]).indices,
            (#[trigger] all[k]).indices,
        ) by {
            let a = all[j].indices.skip(prefix.len() as int);
            let b = all[k].indices.skip(prefix.len() as int);
            assert(row_below(nodes, count, prefix, all[j]));
            assert(row_below(nodes, count, prefix, all[k]));
            lemma_before_below(prefix, a, b);
            if k < front.len() {
                assert(all[j] == front[j] && all[k] == front[k]);
            } else if j < front.len() {
                assert(all[j] == front[j]);
                assert(row_below(nodes, (count - 1) as nat, prefix, front[j]));
                assert(a[0] < i);
                if k == front.len() {
                    assert(b =~= here);
                } else {
                    let m = k - front.len() - 1;
                    assert(all[k] == back[m]);
                    assert(b =~= here + back[m].indices.skip(indices.len() as int));
                }
                assert(b[0] == i);
            } else {
                let m = k - front.len() - 1;
                assert(all[k] == back[m]);
                assert(b =~= here + back[m].indices.skip(indices.len() as int));
                if j == front.len() {
                    assert(a =~= here);
                    assert(a.skip(1) =~= Seq::<usize>::empty());
                    assert(b.skip(1).len() > 0);
                    assert(comes_before(a.skip(1), b.skip(1)));
                } else {
                    assert(all[j] == back[j - front.len() - 1]);
                }
            }
        }
    }
}

/// A node has a row exactly when it can be reached from the top through open folders.
pub proof fn law_shown_iff_folders_open(root: Node, way: Seq<usize>)
    ensures
        (exists|k: int|
            0 <= k < tree_rows(root@).len() && (#[trigger] tree_rows(root@)[k]).indices == way)
            <==> shown(root@.children, way),
{
    lemma_trees_are_indexable(root);
    let rows = tree_rows(root@);
    let nodes = root@.children;
    let none = Seq::<usize>::empty();
    lemma_rows_are_shown(nodes, nodes.len(), none, Seq::empty());
    if shown(nodes, way) {
        lemma_shown_has_row(nodes, nodes.len(), none, Seq::empty(), way);
        assert(none + way =~= way);
    }
    if exists|k: int| 0 <= k < rows.len() && (#[trigger] rows[k]).indices == way {
        let k = choose|k: int| 0 <= k < rows.len() && (#[trigger] rows[k]).indices == way;
        assert(row_below(nodes, nodes.len(), none, rows[k]));
        assert(way.skip(0) =~= way);
    }
}

/// The rows come in the order of a walk through the tree from top to bottom, so that no node has
/// two of them.
pub proof fn law_rows_in_order(root: Node)
    ensures
        forall|j: int, k: int|
            0 <= j < k < tree_rows(root@).len() ==> comes_before(
                (#[trigger] tree_rows(root@)[j]).indices,
                (#[trigger] tree_rows(root@)[k]).indices,
            ),
{
    lemma_trees_are_indexable(root);
    lemma_rows_are_shown(root@.children, root@.children.len(), Seq::empty(), Seq::empty());
}

/// At the `j`th step of the way there is another sibling further down.
pub open spec fn goes_on(root: NodeView, way: Seq<usize>, j: int) -> bool {
    way[j] + 1 < tree::node_at(root, way.take(j)).children.len()
}

/// The lines in front of a row say how the tree goes on: a row at the top has none; otherwise every
/// folder between the top and the row has a column, with a line where the folder has a sibling
/// further down, and in front of the row there is a branch, or an angle at the last sibling.
pub open spec fn guide_fits(root: NodeView, way: Seq<usize>, guide: Option<Seq<char>>) -> bool {
    if way.len() <= 1 {
        guide is None
    } else {
        let columns = way.len() - 2;
        &&& guide is Some
        &&& guide->0.len() == 4 * columns + 2
        &&& forall|j: int|
            0 <= j < columns ==> #[trigger] column(guide->0, j) == if goes_on(root, way, j + 1) {
                seq!['\u{2502}', ' ', ' ', ' ']
            } else {
                seq![' ', ' ', ' ', ' ']
            }
        &&& guide->0.skip(4 * columns) == if goes_on(root, way, way.len() - 1) {
            seq!['\u{251c}', '\u{2500}']
        } else {
            seq!['\u{2514}', '\u{2500}']
        }
    }
}

/// A column of the lines in front of a row.
pub open spec fn column(guide: Seq<char>, j: int) -> Seq<char> {
    guide.subrange(4 * j, 4 * j + 4)
}

proof fn lemma_guide_lines(has_next: Seq<bool>)
    ensures
        guide_lines(has_next).len() == 4 * has_next.len(),
        forall|j: int|
            0 <= j < has_next.len() ==> #[trigger] column(guide_lines(has_next), j)
                == if has_next[j] {
                seq!['\u{2502}', ' ', ' ', ' ']
            } else {
                seq![' ', ' ', ' ', ' ']
            },
    decreases has_next.len(),
{
    if has_next.len() > 0 {
        let front = guide_lines(has_next.drop_last());
        let all = guide_lines(has_next);
        let n = has_next.len() - 1;
        reveal_strlit("\u{2502}   ");
        reveal_strlit("    ");
        lemma_guide_lines(has_next.drop_last());
        assert forall|j: int| 0 <= j < has_next.len() implies #[trigger] column(all, j)
            == if has_next[j] {
            seq!['\u{2502}', ' ', ' ', ' ']
        } else {
            seq![' ', ' ', ' ', ' ']
        } by {
            if j < n {
                assert(column(all, j) =~= column(front, j));
            } else if has_next[n] {
                assert(column(all, n) =~= seq!['\u{2502}', ' ', ' ', ' ']);
            } else {
                assert(column(all, n) =~= seq![' ', ' ', ' ', ' ']);
            }
        }
    }
}

/// The flags tell for every folder on the way below the top whether it has a sibling further down.
spec fn flags_fit(root: NodeView, prefix: Seq<usize>, has_next: Seq<bool>) -> bool {
    &&& has_next.len() == if prefix.len() == 0 {
        0
    } else {
        prefix.len() - 1
    }
    &&& forall|j: int| 0 <= j < has_next.len() ==> #[trigger] has_next[j] == goes_on(root, prefix, j + 1)
}

proof fn lemma_guides_fit(
    root: NodeView,
    nodes: Seq<NodeView>,
    count: nat,
    prefix: Seq<usize>,
    has_next: Seq<bool>,
)
    requires
        tree::has_node(root, prefix),
        tree::node_at(root, prefix).children == nodes,
        indexable(tree::node_at(root, prefix)),
        flags_fit(root, prefix, has_next),
    ensures
        forall|k: int|
            0 <= k < rows_of(nodes, count, prefix, has_next).len() ==> guide_fits(
                root,
                (#[trigger] rows_of(nodes, count, prefix, has_next)[k]).indices,
                rows_of(nodes, count, prefix, has_next)[k].guide,
            ),
    decreases nodes, count,
{
    if count > 0 && count <= nodes.len() {
        let i = count - 1;
        let n = nodes[i];
        let is_last = count == nodes.len();
        let indices = prefix.push(i as usize);
        let guide = guide_of(prefix.len(), has_next, is_last);
        let row = row_of(n, indices, guide);
        let front = rows_of(nodes, (count - 1) as nat, prefix, has_next);
        let below = has_next_below(prefix, has_next, is_last);
        lemma_guides_fit(root, nodes, (count - 1) as nat, prefix, has_next);
        lemma_step_down(root, prefix, i as usize);
        assert(indexable(tree::node_at(root, prefix).children[i]));
        assert(indices.take(prefix.len() as int) =~= prefix);
        assert(goes_on(root, indices, prefix.len() as int) == !is_last);
        assert forall|j: int| 0 <= j < prefix.len() implies #[trigger] goes_on(root, indices, j)
            == goes_on(root, prefix, j) by {
            assert(indices.take(j) =~= prefix.take(j));
        }
        assert(guide_fits(root, indices, guide)) by {
            if prefix.len() > 0 {
                let g = guide->0;
                let lines = guide_lines(has_next);
                reveal_strlit("\u{2514}\u{2500}");
                reveal_strlit("\u{251c}\u{2500}");
                lemma_guide_lines(has_next);
                assert forall|j: int| 0 <= j < has_next.len() implies #[trigger] column(g, j)
                    == if goes_on(root, indices, j + 1) {
                    seq!['\u{2502}', ' ', ' ', ' ']
                } else {
                    seq![' ', ' ', ' ', ' ']
                } by {
                    assert(column(g, j) =~= column(lines, j));
                    assert(has_next[j] == goes_on(root, prefix, j + 1));
                }
                if is_last {
                    assert(g.skip(lines.len() as int) =~= seq!['\u{2514}', '\u{2500}']);
                } else {
                    assert(g.skip(lines.len() as int) =~= seq!['\u{251c}', '\u{2500}']);
                }
            }
        }
        assert(flags_fit(root, indices, below)) by {
            assert forall|j: int| 0 <= j < below.len() implies #[trigger] below[j] == goes_on(
                root,
                indices,
                j + 1,
            ) by {
                if j < has_next.len() {
                    assert(below[j] == has_next[j]);
                }
            }
        }
        lemma_guides_fit(root, n.children, n.children.len(), indices, below);
        let back = if n.file is None && n.expanded {
            rows_of(n.children, n.children.len(), indices, below)
        } else {
            Seq::empty()
        };
        let all = rows_of(nodes, count, prefix, has_next);
        assert(all == front.push(row) + back);
        assert forall|k: int| 0 <= k < all.len() implies guide_fits(
            root,
            (#[trigger] all[k]).indices,
            all[k].guide,
        ) by {
            if k < front.len() {
                assert(all[k] == front[k]);
            } else if k == front.len() {
                assert(all[k] == row);
            } else {
                assert(all[k] == back[k - front.len() - 1]);
            }
        }
    }
}

/// The lines in front of every row fit the tree.
pub proof fn law_guides_follow_the_tree(root: Node)
    ensures
        forall|k: int|
            0 <= k < tree_rows(root@).len() ==> guide_fits(
                root@,
                (#[trigger] tree_rows(root@)[k]).indices,
                tree_rows(root@)[k].guide,
            ),
{
    lemma_trees_are_indexable(root);
    lemma_guides_fit(
        root@,
        root@.children,
        root@.children.len(),
        Seq::empty(),
        Seq::empty(),
    );
}

/// The view of a row shows every field of it.
pub proof fn law_row_view_shows_every_field(rows: Seq<Row>, i: int)
    requires
        0 <= i < rows.len(),
    ensures
        row_views(rows).len() == rows.len(),
        row_views(rows)[i] == rows[i]@,
        rows[i]@.indices == rows[i].indices@,
        rows[i].guide is None ==> rows[i]@.guide is None,
        rows[i].guide matches Some(guide) ==> rows[i]@.guide == Some(guide@),
        rows[i]@.folder == rows[i].folder,
        rows[i]@.expanded == rows[i].expanded,
        rows[i]@.selected == rows[i].selected,
        rows[i]@.total == rows[i].total,
        rows[i]@.name == rows[i].name@,
        rows[i]@.path == rows[i].path@,
        rows[i]@.size == rows[i].size,
{
}

} // verus!
