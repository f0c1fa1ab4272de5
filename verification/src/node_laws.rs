//! What the operations on a repository's tree do to each of its nodes.

use crate::text;
use crate::tree;
use crate::tree::{Node, NodeView, RepoFile, RepoFileView};
use crate::tree_laws;
use vstd::prelude::*;

verus! {

/// The node that a way leads to, if it leads to one: every step goes to the child of that number.
pub open spec fn reached(n: NodeView, way: Seq<int>) -> Option<NodeView>
    decreases way.len(),
{
    if way.len() == 0 {
        Some(n)
    } else if 0 <= way[0] < n.children.len() {
        reached(n.children[way[0]], way.skip(1))
    } else {
        None
    }
}

/// The same node, apart from what is below it.
pub open spec fn same_node(a: NodeView, b: NodeView) -> bool {
    &&& a.name == b.name
    &&& a.path == b.path
    &&& a.size == b.size
    &&& a.file == b.file
    &&& a.selected == b.selected
    &&& a.expanded == b.expanded
}

pub open spec fn as_way(indices: Seq<usize>) -> Seq<int> {
    indices.map_values(|i: usize| i as int)
}

/// Indices lead to a node exactly when every one of them is that of a child, and then to the node
/// that is reached child by child.
pub proof fn law_indices_reach_nodes(n: NodeView, indices: Seq<usize>)
    ensures
        tree::has_node(n, indices) <==> reached(n, as_way(indices)) is Some,
        tree::has_node(n, indices) ==> reached(n, as_way(indices)) == Some(
            tree::node_at(n, indices),
        ),
    decreases indices.len(),
{
    if indices.len() > 0 {
        assert(as_way(indices).skip(1) =~= as_way(indices.skip(1)));
        if indices[0] < n.children.len() {
            law_indices_reach_nodes(n.children[indices[0] as int], indices.skip(1));
        }
    }
}

/// A step further leads to a child of the node before.
pub proof fn law_one_step_further(n: NodeView, way: Seq<int>, i: int)
    ensures
        reached(n, way.push(i)) == match reached(n, way) {
            Some(m) => if 0 <= i < m.children.len() {
                Some(m.children[i])
            } else {
                None
            },
            None => None,
        },
    decreases way.len(),
{
    if way.len() == 0 {
        assert(way.push(i).skip(1) =~= Seq::<int>::empty());
        if 0 <= i < n.children.len() {
            assert(reached(n.children[i], way.push(i).skip(1)) == Some(n.children[i]));
        }
    } else {
        assert(way.push(i).skip(1) =~= way.skip(1).push(i));
        if 0 <= way[0] < n.children.len() {
            law_one_step_further(n.children[way[0]], way.skip(1), i);
        }
    }
}

/// Selecting or deselecting a node sets the selection of every node at and below it, and changes
/// nothing else.
pub proof fn law_set_selected_sets_each(n: NodeView, selected: bool, way: Seq<int>)
    ensures
        match reached(n, way) {
            Some(m) => {
                &&& reached(tree::with_selection(n, selected), way) matches Some(after)
                &&& after.selected == selected
                &&& same_node(after, NodeView { selected, ..m })
                &&& after.children.len() == m.children.len()
            },
            None => reached(tree::with_selection(n, selected), way) is None,
        },
    decreases way.len(),
{
    let after = tree::with_selection(n, selected);
    if way.len() > 0 && 0 <= way[0] < n.children.len() {
        assert(after.children[way[0]] == tree::with_selection(n.children[way[0]], selected));
        law_set_selected_sets_each(n.children[way[0]], selected, way.skip(1));
    }
}

/// The way leads to the node of the indices or below it.
pub open spec fn leads_through(way: Seq<int>, indices: Seq<usize>) -> bool {
    &&& way.len() >= indices.len()
    &&& forall|j: int| 0 <= j < indices.len() ==> #[trigger] way[j] == indices[j]
}

/// Changing what indices lead to changes that node and what is below it, and no other node of the
/// tree.
pub proof fn law_change_touches_one_place(
    n: NodeView,
    indices: Seq<usize>,
    node: NodeView,
    way: Seq<int>,
)
    requires
        tree::has_node(n, indices),
    ensures
        ({
            let after = tree::with_node(n, indices, node);
            &&& leads_through(way, indices) ==> reached(after, way) == reached(
                node,
                way.skip(indices.len() as int),
            )
            &&& !leads_through(way, indices) ==> match reached(n, way) {
                Some(m) => {
                    &&& reached(after, way) matches Some(kept)
                    &&& same_node(kept, m)
                    &&& kept.children.len() == m.children.len()
                },
                None => reached(after, way) is None,
            }
        }),
    decreases indices.len(),
{
    let after = tree::with_node(n, indices, node);
    if indices.len() == 0 {
        assert(way.skip(0) =~= way);
    } else if way.len() > 0 {
        let i = indices[0] as int;
        let rest = indices.skip(1);
        if way[0] == i {
            law_change_touches_one_place(n.children[i], rest, node, way.skip(1));
            assert(leads_through(way, indices) <==> leads_through(way.skip(1), rest)) by {
                if leads_through(way, indices) {
                    assert forall|j: int| 0 <= j < rest.len() implies #[trigger] way.skip(1)[j]
                        == rest[j] by {
                        assert(way[j + 1] == indices[j + 1]);
                    }
                }
                if leads_through(way.skip(1), rest) {
                    assert forall|j: int| 0 <= j < indices.len() implies #[trigger] way[j]
                        == indices[j] by {
                        if j > 0 {
                            assert(way.skip(1)[j - 1] == rest[j - 1]);
                        }
                    }
                }
            }
            if leads_through(way, indices) {
                assert(way.skip(1).skip(rest.len() as int) =~= way.skip(indices.len() as int));
            }
        } else {
            assert(!leads_through(way, indices));
            if 0 <= way[0] < n.children.len() {
                assert(after.children[way[0]] == n.children[way[0]]);
            }
        }
    } else {
        assert(!leads_through(way, indices));
    }
}

/// The node of a file that was just inserted: it has the name and the path that it was inserted
/// under and the size of the file, or none where that is not known; it is selected and has
/// nothing below it.
pub open spec fn is_new_file(
    m: NodeView,
    name: Seq<char>,
    path: Seq<char>,
    file: RepoFileView,
) -> bool {
    &&& m.name == name
    &&& m.path == path
    &&& m.file == Some(file)
    &&& file.size matches Some(size) ==> m.size == size
    &&& file.size is None ==> m.size == 0
    &&& m.selected
    &&& !m.expanded
    &&& m.children.len() == 0
}

/// The way leads through folders with the names of all parts but the last.
pub open spec fn through_named_folders(
    n: NodeView,
    way: Seq<int>,
    parts: Seq<Seq<char>>,
) -> bool {
    &&& way.len() == parts.len()
    &&& forall|j: int|
        0 < j < way.len() ==> {
            &&& reached(n, #[trigger] way.take(j)) matches Some(folder)
            &&& folder.file is None
            &&& folder.name == parts[j - 1]
        }
}

proof fn lemma_insert_finds(
    n: NodeView,
    parts: Seq<Seq<char>>,
    full: Seq<char>,
    file: RepoFileView,
) -> (way: Seq<int>)
    requires
        parts.len() > 0,
    ensures
        ({
            let after = tree::inserted(n, parts, full, file);
            &&& through_named_folders(after, way, parts)
            &&& reached(after, way) matches Some(m)
            &&& is_new_file(m, parts.last(), full, file)
            &&& reached(n, way) is None
        }),
    decreases parts.len(),
{
    let after = tree::inserted(n, parts, full, file);
    if parts.len() == 1 {
        let way = seq![n.children.len() as int];
        assert(way.skip(1) =~= Seq::<int>::empty());
        assert(reached(after.children[way[0]], way.skip(1)) == Some(after.children[way[0]]));
        way
    } else {
        tree::lemma_folder_position_is_folder(n.children, parts[0]);
        let (i, before) = match tree::folder_position(n.children, parts[0]) {
            Some(i) => (i, n.children[i]),
            None => (
                n.children.len() as int,
                tree::folder_view(parts[0], tree::folder_path(full, parts.skip(1))),
            ),
        };
        let below = lemma_insert_finds(before, parts.skip(1), full, file);
        let way = seq![i] + below;
        let child = after.children[i];
        assert(child == tree::inserted(before, parts.skip(1), full, file));
        assert(way.skip(1) =~= below);
        assert(parts.skip(1).last() == parts.last());
        lemma_inserted_is_folder(before, parts.skip(1), full, file);
        assert forall|j: int| 0 < j < way.len() implies {
            &&& reached(after, #[trigger] way.take(j)) matches Some(folder)
            &&& folder.file is None
            &&& folder.name == parts[j - 1]
        } by {
            let short = way.take(j);
            assert(short.skip(1) =~= below.take(j - 1));
            assert(reached(after, short) == reached(child, below.take(j - 1)));
            if j == 1 {
                assert(below.take(0) =~= Seq::<int>::empty());
            } else {
                assert(reached(child, below.take(j - 1)) is Some);
                assert(parts.skip(1)[j - 2] == parts[j - 1]);
            }
        }
        way
    }
}

proof fn lemma_inserted_is_folder(
    n: NodeView,
    parts: Seq<Seq<char>>,
    full: Seq<char>,
    file: RepoFileView,
)
    ensures
        same_node(tree::inserted(n, parts, full, file), n),
{
}

/// An inserted file is found below folders with the names of the parts in front of its own name.
pub proof fn law_inserted_file_is_found(
    n: NodeView,
    parts: Seq<Seq<char>>,
    full: Seq<char>,
    file: RepoFileView,
)
    requires
        parts.len() > 0,
    ensures
        exists|way: Seq<int>| #[trigger]
            through_named_folders(tree::inserted(n, parts, full, file), way, parts) && reached(
                tree::inserted(n, parts, full, file),
                way,
            ) is Some && is_new_file(
                reached(tree::inserted(n, parts, full, file), way)->0,
                parts.last(),
                full,
                file,
            ) && reached(n, way) is None,
{
    let way = lemma_insert_finds(n, parts, full, file);
    assert(through_named_folders(tree::inserted(n, parts, full, file), way, parts));
}

/// Inserting a file leaves every node where it is and as it is; nodes are only added behind their
/// siblings.
pub proof fn law_insert_leaves_nodes_alone(
    n: NodeView,
    parts: Seq<Seq<char>>,
    full: Seq<char>,
    file: RepoFileView,
    way: Seq<int>,
)
    ensures
        reached(n, way) matches Some(m) ==> {
            &&& reached(tree::inserted(n, parts, full, file), way) matches Some(kept)
            &&& same_node(kept, m)
            &&& m.children.len() <= kept.children.len() <= m.children.len() + 1
        },
    decreases parts.len(),
{
    let after = tree::inserted(n, parts, full, file);
    if parts.len() > 1 {
        tree::lemma_folder_position_is_folder(n.children, parts[0]);
    }
    if way.len() == 0 {
        assert(reached(n, way) == Some(n) && reached(after, way) == Some(after));
    } else if 0 <= way[0] < n.children.len() {
        let rest = way.skip(1);
        assert(reached(n, way) == reached(n.children[way[0]], rest));
        assert(reached(after, way) == reached(after.children[way[0]], rest));
        if parts.len() > 1 && tree::folder_position(n.children, parts[0]) == Some(way[0]) {
            law_insert_leaves_nodes_alone(n.children[way[0]], parts.skip(1), full, file, rest);
        } else {
            assert(after.children[way[0]] == n.children[way[0]]);
        }
    }
}

/// What inserting a file adds is the node of the file and the folders that it needs, each of them
/// selected, closed, and with one node in it.
pub proof fn law_insert_adds_only_what_is_needed(
    n: NodeView,
    parts: Seq<Seq<char>>,
    full: Seq<char>,
    file: RepoFileView,
    way: Seq<int>,
)
    requires
        parts.len() > 0,
        reached(n, way) is None,
    ensures
        reached(tree::inserted(n, parts, full, file), way) matches Some(m) ==> {
            ||| is_new_file(m, parts.last(), full, file)
            ||| m.file is None && m.selected && !m.expanded && m.size == 0 && m.children.len() == 1
        },
    decreases parts.len(),
{
    let after = tree::inserted(n, parts, full, file);
    if 0 <= way[0] < after.children.len() {
        let rest = way.skip(1);
        if parts.len() == 1 {
            if way[0] == n.children.len() && rest.len() > 0 {
                assert(reached(after.children[way[0]], rest) is None);
            }
        } else {
            tree::lemma_folder_position_is_folder(n.children, parts[0]);
            assert(parts.skip(1).last() == parts.last());
            match tree::folder_position(n.children, parts[0]) {
                Some(i) => {
                    if way[0] == i {
                        law_insert_adds_only_what_is_needed(
                            n.children[i],
                            parts.skip(1),
                            full,
                            file,
                            rest,
                        );
                    }
                },
                None => {
                    let folder = tree::folder_view(
                        parts[0],
                        tree::folder_path(full, parts.skip(1)),
                    );
                    if way[0] == n.children.len() && rest.len() > 0 {
                        assert(reached(folder, rest) is None);
                        law_insert_adds_only_what_is_needed(
                            folder,
                            parts.skip(1),
                            full,
                            file,
                            rest,
                        );
                    }
                },
            }
        }
    }
}

/// The first folder of the name that leads on is used: a folder is added only where there is none.
pub proof fn law_insert_uses_the_folder(
    n: NodeView,
    parts: Seq<Seq<char>>,
    full: Seq<char>,
    file: RepoFileView,
)
    requires
        parts.len() > 1,
    ensures
        tree::inserted(n, parts, full, file).children.len() == n.children.len() + if exists|i: int|
            0 <= i < n.children.len() && (#[trigger] n.children[i]).file is None
                && n.children[i].name == parts[0] {
            0int
        } else {
            1
        },
{
    lemma_folder_position_finds(n.children, parts[0]);
    tree::lemma_folder_position_is_folder(n.children, parts[0]);
}

proof fn lemma_folder_position_finds(nodes: Seq<NodeView>, name: Seq<char>)
    ensures
        tree::folder_position(nodes, name) is Some <==> exists|i: int|
            0 <= i < nodes.len() && (#[trigger] nodes[i]).file is None && nodes[i].name == name,
    decreases nodes.len(),
{
    if nodes.len() > 0 {
        let front = nodes.drop_last();
        lemma_folder_position_finds(front, name);
        assert(forall|i: int| 0 <= i < front.len() ==> front[i] == #[trigger] nodes[i]);
        if tree::folder_position(front, name) is Some {
            let i = choose|i: int|
                0 <= i < front.len() && (#[trigger] front[i]).file is None && front[i].name == name;
            assert(nodes[i].file is None && nodes[i].name == name);
        } else if nodes.last().file is None && nodes.last().name == name {
            assert(nodes[nodes.len() - 1].file is None);
        } else {
            assert forall|i: int| 0 <= i < nodes.len() implies !((#[trigger] nodes[i]).file is None
                && nodes[i].name == name) by {
                if i < front.len() {
                    assert(!(front[i].file is None && front[i].name == name));
                }
            }
        }
    }
}

/// Finishing a node keeps all that it is but its size, and keeps its children, each of them
/// finished; only their order may change.
pub proof fn law_finish_keeps_nodes(n: NodeView)
    ensures
        tree::finished(n).name == n.name,
        tree::finished(n).path == n.path,
        tree::finished(n).file == n.file,
        tree::finished(n).selected == n.selected,
        tree::finished(n).expanded == n.expanded,
        n.file is Some ==> tree::finished(n).size == n.size,
        tree::finished(n).children.len() == n.children.len(),
        tree::finished(n).children.to_multiset() == n.children.map_values(
            |child: NodeView| tree::finished(child),
        ).to_multiset(),
{
    tree::lemma_finished_children(n);
    tree_laws::law_sorted_in_order(tree::finished_children(n));
    assert(tree::finished_all(n.children) =~= n.children.map_values(
        |child: NodeView| tree::finished(child),
    ));
}

/// In a finished node the folders come first, and among folders and among files the lowercase
/// names come in the order of their characters.
pub proof fn law_finished_children_are_ordered(n: NodeView, i: int, j: int)
    requires
        0 <= i < j < n.children.len(),
    ensures
        ({
            let (a, b) = (tree::finished(n).children[i], tree::finished(n).children[j]);
            &&& a.file is Some ==> b.file is Some
            &&& (a.file is Some) == (b.file is Some) ==> !text::lex_less(
                text::lowercase(b.name),
                text::lowercase(a.name),
            )
        }),
{
    tree_laws::law_sorted_in_order(tree::finished_children(n));
    let children = tree::finished(n).children;
    assert(!tree::node_less(children[j], children[i]));
}

/// Nodes of the same kind with the same lowercase name as the given one.
pub open spec fn ties_with(rank: NodeView) -> spec_fn(NodeView) -> bool {
    |m: NodeView|
        (m.file is None) == (rank.file is None) && text::lowercase(m.name) == text::lowercase(
            rank.name,
        )
}

/// Siblings that tie keep the order in which they came.
pub proof fn law_ties_keep_their_order(nodes: Seq<NodeView>, rank: NodeView)
    ensures
        tree::sorted(nodes).filter(ties_with(rank)) == nodes.filter(ties_with(rank)),
{
    assert forall|m: NodeView| #[trigger] ties_with(rank)(m) == tree_laws::of_rank(rank)(m) by {
        tree_laws::law_text_order_total(text::lowercase(m.name), text::lowercase(rank.name));
        tree_laws::law_text_order_total(text::lowercase(rank.name), text::lowercase(m.name));
    }
    assert(ties_with(rank) =~= tree_laws::of_rank(rank));
    tree_laws::law_sorted_stable(nodes, rank);
}

/// The size of a finished folder is that of its children together.
pub proof fn law_folder_weighs_its_children(n: NodeView)
    requires
        tree::fits(n),
        n.file is None,
    ensures
        tree::finished(n).size == tree::finished(n).children.fold_left(
            0int,
            |sum: int, child: NodeView| sum + child.size,
        ),
{
    tree::lemma_finished_weight(n);
    lemma_size_sum(tree::finished(n).children);
}

proof fn lemma_size_sum(nodes: Seq<NodeView>)
    ensures
        tree::size_sum(nodes) == nodes.fold_left(
            0int,
            |sum: int, child: NodeView| sum + child.size,
        ),
    decreases nodes.len(),
{
    if nodes.len() > 0 {
        lemma_size_sum(nodes.drop_last());
    }
}

/// A folder with one more child has the files of that child too: in their number, in the number of
/// those that are selected, in what they weigh, and behind the others in what is collected.
pub proof fn law_child_adds_its_files(n: NodeView, child: NodeView)
    requires
        n.file is None,
    ensures
        ({
            let more = NodeView { children: n.children.push(child), ..n };
            &&& tree::file_count(more) == tree::file_count(n) + tree::file_count(child)
            &&& tree::selected_count(more) == tree::selected_count(n) + tree::selected_count(child)
            &&& tree::weight(more) == tree::weight(n) + tree::weight(child)
            &&& tree::selected_files(more) == tree::selected_files(n) + tree::selected_files(child)
        }),
        n.children.len() == 0 ==> {
            &&& tree::file_count(n) == 0
            &&& tree::selected_count(n) == 0
            &&& tree::weight(n) == 0
            &&& tree::selected_files(n).len() == 0
        },
{
    let more = NodeView { children: n.children.push(child), ..n };
    assert(more.children.drop_last() =~= n.children);
    assert(tree::selected_files(more) =~= tree::selected_files(n) + tree::selected_files(child));
}

/// A file counts once, counts as selected and is collected if it is selected, and weighs its size.
pub proof fn law_file_counts_once(n: NodeView)
    requires
        n.file is Some,
    ensures
        tree::file_count(n) == 1,
        n.selected ==> tree::selected_count(n) == 1,
        !n.selected ==> tree::selected_count(n) == 0,
        tree::weight(n) == n.size,
        n.children.len() == 0 && n.selected ==> tree::selected_files(n) == seq![n.file->0],
        n.children.len() == 0 && !n.selected ==> tree::selected_files(n).len() == 0,
{
    if n.children.len() == 0 && n.selected {
        assert(tree::selected_files(n) =~= seq![n.file->0]);
    }
}

/// A file is collected exactly when it is selected somewhere in the tree.
pub proof fn law_selected_files_are_collected(n: NodeView, file: RepoFileView)
    ensures
        tree::selected_files(n).contains(file) <==> exists|way: Seq<int>|
            holds_selected(n, way, file),
    decreases n,
{
    let own = if n.file is Some && n.selected {
        seq![n.file->0]
    } else {
        Seq::empty()
    };
    let below = tree::selected_files_all(n.children);
    let all = own + below;
    let none = Seq::<int>::empty();
    lemma_selected_below(n.children, file);
    if all.contains(file) {
        let k = choose|k: int| 0 <= k < all.len() && all[k] == file;
        if k < own.len() {
            assert(reached(n, none) == Some(n));
            assert(holds_selected(n, none, file));
        } else {
            assert(below[k - own.len()] == file);
            let (i, way): (int, Seq<int>) = choose|i: int, way: Seq<int>|
                0 <= i < n.children.len() && #[trigger] holds_selected(n.children[i], way, file);
            let longer = seq![i] + way;
            assert(longer.skip(1) =~= way);
            assert(holds_selected(n, longer, file));
        }
    }
    if exists|way: Seq<int>| holds_selected(n, way, file) {
        let way = choose|way: Seq<int>| holds_selected(n, way, file);
        if way.len() == 0 {
            assert(all[0] == file);
        } else {
            assert(holds_selected(n.children[way[0]], way.skip(1), file));
            let k = choose|k: int| 0 <= k < below.len() && below[k] == file;
            assert(all[own.len() + k] == file);
        }
    }
}

/// The way leads to a node of the file that is selected.
pub open spec fn holds_selected(n: NodeView, way: Seq<int>, file: RepoFileView) -> bool {
    reached(n, way) matches Some(m) && m.file == Some(file) && m.selected
}

proof fn lemma_selected_below(nodes: Seq<NodeView>, file: RepoFileView)
    ensures
        tree::selected_files_all(nodes).contains(file) <==> exists|i: int, way: Seq<int>|
            0 <= i < nodes.len() && #[trigger] holds_selected(nodes[i], way, file),
    decreases nodes,
{
    if nodes.len() > 0 {
        let front = nodes.drop_last();
        let last = nodes.last();
        let n = nodes.len() - 1;
        let before = tree::selected_files_all(front);
        let own = tree::selected_files(last);
        let all = before + own;
        lemma_selected_below(front, file);
        law_selected_files_are_collected(last, file);
        if all.contains(file) {
            let k = choose|k: int| 0 <= k < all.len() && all[k] == file;
            if k < before.len() {
                assert(before[k] == file);
                let (i, way): (int, Seq<int>) = choose|i: int, way: Seq<int>|
                    0 <= i < front.len() && #[trigger] holds_selected(front[i], way, file);
                assert(holds_selected(nodes[i], way, file));
            } else {
                assert(own[k - before.len()] == file);
                let way = choose|way: Seq<int>| holds_selected(last, way, file);
                assert(holds_selected(nodes[n], way, file));
            }
        }
        if exists|i: int, way: Seq<int>|
            0 <= i < nodes.len() && #[trigger] holds_selected(nodes[i], way, file) {
            let (i, way): (int, Seq<int>) = choose|i: int, way: Seq<int>|
                0 <= i < nodes.len() && #[trigger] holds_selected(nodes[i], way, file);
            if i < n {
                assert(holds_selected(front[i], way, file));
                let k = choose|k: int| 0 <= k < before.len() && before[k] == file;
                assert(all[k] == file);
            } else {
                assert(holds_selected(last, way, file));
                let k = choose|k: int| 0 <= k < own.len() && own[k] == file;
                assert(all[before.len() + k] == file);
            }
        }
    }
}

/// The root of a repository's tree carries the ID, is a folder without a path, is open and
/// selected.
pub proof fn law_root_of_a_repository(id: Seq<char>, files: Seq<RepoFileView>)
    ensures
        ({
            let root = tree::repository_tree(id, files);
            &&& root.name == id
            &&& root.path.len() == 0
            &&& root.file is None
            &&& root.selected
            &&& root.expanded
        }),
    decreases files.len(),
{
    if files.len() > 0 {
        law_root_of_a_repository(id, files.drop_last());
    }
}

/// A folder without content has its name and its path, is selected and closed.
pub proof fn law_new_folder(name: Seq<char>, path: Seq<char>)
    ensures
        ({
            let folder = tree::folder_view(name, path);
            &&& folder.name == name
            &&& folder.path == path
            &&& folder.size == 0
            &&& folder.file is None
            &&& folder.selected
            &&& !folder.expanded
            &&& folder.children.len() == 0
        }),
{
}

/// One more file adds its size to the known sizes, and one without a size adds nothing.
pub proof fn law_file_adds_its_size(files: Seq<RepoFileView>, file: RepoFileView)
    ensures
        tree::known_sizes(Seq::empty()) == 0,
        file.size matches Some(size) ==> tree::known_sizes(files.push(file)) == tree::known_sizes(
            files,
        ) + size,
        file.size is None ==> tree::known_sizes(files.push(file)) == tree::known_sizes(files),
{
    assert(files.push(file).drop_last() =~= files);
}

/// The files of a listing are inserted one after the other, each under the pieces of its path.
pub proof fn law_listing_inserts_in_order(
    root: NodeView,
    files: Seq<RepoFileView>,
    file: RepoFileView,
)
    ensures
        tree::listed(root, Seq::empty()) == root,
        tree::listed(root, files.push(file)) == tree::inserted(
            tree::listed(root, files),
            text::pieces(file.path, '/'),
            file.path,
            file,
        ),
{
    assert(files.push(file).drop_last() =~= files);
}

/// The view of a node shows every field of it, and its children one by one.
pub proof fn law_node_view_shows_every_field(n: Node, i: int)
    ensures
        n@.name == n.name@,
        n@.path == n.path@,
        n@.size == n.size,
        n@.selected == n.selected,
        n@.expanded == n.expanded,
        n.file is None ==> n@.file is None,
        n.file matches Some(file) ==> n@.file == Some(file@),
        n@.children.len() == n.children@.len(),
        0 <= i < n.children@.len() ==> n@.children[i] == n.children@[i]@,
{
}

/// The view of a file shows every field of it.
pub proof fn law_file_view_shows_every_field(files: Seq<RepoFile>, i: int)
    requires
        0 <= i < files.len(),
    ensures
        tree::file_views(files).len() == files.len(),
        tree::file_views(files)[i] == files[i]@,
        files[i]@.path == files[i].path@,
        files[i]@.size == files[i].size,
        files[i].sha256 is None ==> files[i]@.sha256 is None,
        files[i].sha256 matches Some(hash) ==> files[i]@.sha256 == Some(hash@),
{
}

} // verus!
