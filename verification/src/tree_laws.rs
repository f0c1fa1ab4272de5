//! What holds of every repository tree: its order, its sizes, its paths and its selection.

use crate::text;
use crate::tree;
use crate::tree::{NodeView, RepoFileView};
use vstd::multiset::Multiset;
use vstd::prelude::*;

verus! {

proof fn lemma_lex_irreflexive(a: Seq<char>)
    ensures
        !text::lex_less(a, a),
    decreases a.len(),
{
    if a.len() > 0 {
        lemma_lex_irreflexive(a.drop_first());
    }
}

/// Of two texts one comes first, unless they are the same.
pub proof fn law_text_order_total(a: Seq<char>, b: Seq<char>)
    ensures
        a != b ==> (text::lex_less(a, b) <==> !text::lex_less(b, a)),
        a == b ==> !text::lex_less(a, b),
    decreases a.len(),
{
    if a == b {
        lemma_lex_irreflexive(a);
    } else if a.len() > 0 && b.len() > 0 && a[0] == b[0] {
        law_text_order_total(a.drop_first(), b.drop_first());
        if a.drop_first() == b.drop_first() {
            assert(seq![a[0]] + a.drop_first() =~= a);
            assert(seq![b[0]] + b.drop_first() =~= b);
        }
    } else if a.len() == 0 && b.len() == 0 {
        assert(a =~= b);
    }
}

pub proof fn law_text_order_transitive(a: Seq<char>, b: Seq<char>, c: Seq<char>)
    requires
        text::lex_less(a, b),
        text::lex_less(b, c),
    ensures
        text::lex_less(a, c),
    decreases a.len(),
{
    if a.len() > 0 && a[0] == b[0] && b[0] == c[0] {
        law_text_order_transitive(a.drop_first(), b.drop_first(), c.drop_first());
    }
}

/// What does not come after a node comes before nothing that the node does not come before.
proof fn lemma_node_order(a: NodeView, b: NodeView, c: NodeView)
    ensures
        !tree::node_less(a, a),
        tree::node_less(a, b) ==> !tree::node_less(b, a),
        !tree::node_less(a, b) && !tree::node_less(b, c) ==> !tree::node_less(a, c),
{
    let (x, y, z) = (
        text::lowercase(a.name),
        text::lowercase(b.name),
        text::lowercase(c.name),
    );
    law_text_order_total(x, x);
    law_text_order_total(x, y);
    law_text_order_total(y, z);
    law_text_order_total(x, z);
    if text::lex_less(x, z) && text::lex_less(z, y) {
        law_text_order_transitive(x, z, y);
    }
    if text::lex_less(y, x) && text::lex_less(x, z) {
        law_text_order_transitive(y, x, z);
    }
}

/// No node comes before one that stands in front of it.
pub open spec fn in_order(nodes: Seq<NodeView>) -> bool {
    forall|i: int, j: int|
        0 <= i < j < nodes.len() ==> !tree::node_less(#[trigger] nodes[j], #[trigger] nodes[i])
}

/// Neither node comes before the other.
pub open spec fn same_rank(a: NodeView, b: NodeView) -> bool {
    !tree::node_less(a, b) && !tree::node_less(b, a)
}

pub open spec fn of_rank(rank: NodeView) -> spec_fn(NodeView) -> bool {
    |m: NodeView| same_rank(m, rank)
}

proof fn lemma_sorted_with_in_order(nodes: Seq<NodeView>, n: NodeView)
    requires
        in_order(nodes),
    ensures
        in_order(tree::sorted_with(nodes, n)),
        tree::sorted_with(nodes, n).to_multiset() == nodes.to_multiset().insert(n),
        forall|i: int|
            0 <= i < tree::sorted_with(nodes, n).len() ==> (#[trigger] tree::sorted_with(
                nodes,
                n,
            )[i] == n || nodes.contains(tree::sorted_with(nodes, n)[i])),
    decreases nodes.len(),
{
    let after = tree::sorted_with(nodes, n);
    nodes.to_multiset_ensures();
    if nodes.len() == 0 || !tree::node_less(n, nodes.last()) {
        assert forall|i: int, j: int| 0 <= i < j < after.len() implies !tree::node_less(
            #[trigger] after[j],
            #[trigger] after[i],
        ) by {
            if j == nodes.len() {
                lemma_node_order(n, nodes.last(), after[i]);
                if i < nodes.len() - 1 {
                    assert(!tree::node_less(nodes[nodes.len() - 1], nodes[i]));
                }
            }
        }
    } else {
        let last = nodes.last();
        let front = tree::sorted_with(nodes.drop_last(), n);
        lemma_sorted_with_in_order(nodes.drop_last(), n);
        assert(after == front.push(last));
        assert forall|i: int, j: int| 0 <= i < j < after.len() implies !tree::node_less(
            #[trigger] after[j],
            #[trigger] after[i],
        ) by {
            if j == front.len() {
                lemma_node_order(n, last, n);
                if front[i] != n {
                    let k = choose|k: int|
                        0 <= k < nodes.len() - 1 && nodes.drop_last()[k] == front[i];
                    assert(!tree::node_less(nodes[nodes.len() - 1], nodes[k]));
                }
            }
        }
        assert(nodes.drop_last().push(last) =~= nodes);
        front.to_multiset_ensures();
        nodes.drop_last().to_multiset_ensures();
        assert(after.to_multiset() =~= nodes.to_multiset().insert(n));
        assert forall|i: int| 0 <= i < after.len() implies (#[trigger] after[i] == n
            || nodes.contains(after[i])) by {
            if i < front.len() && front[i] != n {
                let k = choose|k: int|
                    0 <= k < nodes.len() - 1 && nodes.drop_last()[k] == front[i];
                assert(nodes[k] == after[i]);
            } else if i == front.len() {
                assert(nodes[nodes.len() - 1] == after[i]);
            }
        }
    }
}

/// Sorting siblings puts folders first and then goes by lowercase name, and neither loses nor
/// adds a node.
pub proof fn law_sorted_in_order(nodes: Seq<NodeView>)
    ensures
        in_order(tree::sorted(nodes)),
        tree::sorted(nodes).to_multiset() == nodes.to_multiset(),
        tree::sorted(nodes).len() == nodes.len(),
    decreases nodes.len(),
{
    nodes.to_multiset_ensures();
    tree::sorted(nodes).to_multiset_ensures();
    if nodes.len() > 0 {
        nodes.drop_last().to_multiset_ensures();
        law_sorted_in_order(nodes.drop_last());
        lemma_sorted_with_in_order(tree::sorted(nodes.drop_last()), nodes.last());
        assert(nodes.drop_last().push(nodes.last()) =~= nodes);
    }
}

proof fn lemma_sorted_with_stable(nodes: Seq<NodeView>, n: NodeView, rank: NodeView)
    requires
        in_order(nodes),
    ensures
        tree::sorted_with(nodes, n).filter(of_rank(rank)) == nodes.push(
            n,
        ).filter(of_rank(rank)),
    decreases nodes.len(),
{
    reveal_with_fuel(Seq::filter, 3);
    assert(nodes.push(n).drop_last() =~= nodes);
    if nodes.len() > 0 && tree::node_less(n, nodes.last()) {
        let last = nodes.last();
        let front = tree::sorted_with(nodes.drop_last(), n);
        lemma_sorted_with_stable(nodes.drop_last(), n, rank);
        assert(front.push(last).drop_last() =~= front);
        assert(nodes.drop_last().push(n).drop_last() =~= nodes.drop_last());
        // Two nodes of one rank do not come before each other.
        lemma_node_order(n, rank, last);
        assert(front.push(last).filter(of_rank(rank)) =~= nodes.push(n).filter(of_rank(rank)));
    }
}

/// Sorting keeps the order of nodes that neither comes before the other.
pub proof fn law_sorted_stable(nodes: Seq<NodeView>, rank: NodeView)
    ensures
        tree::sorted(nodes).filter(of_rank(rank)) == nodes.filter(
            of_rank(rank),
        ),
    decreases nodes.len(),
{
    reveal(Seq::filter);
    if nodes.len() > 0 {
        let front = tree::sorted(nodes.drop_last());
        law_sorted_stable(nodes.drop_last(), rank);
        law_sorted_in_order(nodes.drop_last());
        lemma_sorted_with_stable(front, nodes.last(), rank);
        assert(front.push(nodes.last()).drop_last() =~= front);
    }
}

/// Nodes that are in order stay as they are.
pub proof fn law_sorting_sorted_changes_nothing(nodes: Seq<NodeView>)
    requires
        in_order(nodes),
    ensures
        tree::sorted(nodes) == nodes,
    decreases nodes.len(),
{
    if nodes.len() > 0 {
        let front = nodes.drop_last();
        law_sorting_sorted_changes_nothing(front);
        if front.len() > 0 {
            assert(!tree::node_less(nodes[nodes.len() - 1], nodes[nodes.len() - 2]));
        }
        assert(front.push(nodes.last()) =~= nodes);
    }
}

proof fn lemma_sorted_contains(nodes: Seq<NodeView>, n: NodeView)
    ensures
        tree::sorted(nodes).contains(n) == nodes.contains(n),
{
    law_sorted_in_order(nodes);
    nodes.to_multiset_ensures();
    tree::sorted(nodes).to_multiset_ensures();
    assert(tree::sorted(nodes).contains(n) <==> nodes.to_multiset().count(n) > 0);
}

/// A child of a finished node is a finished child of the node.
proof fn lemma_finished_child(n: NodeView, i: int) -> (k: int)
    requires
        0 <= i < tree::finished(n).children.len(),
    ensures
        0 <= k < n.children.len(),
        tree::finished(n).children[i] == tree::finished(n.children[k]),
        tree::finished(n).children.len() == n.children.len(),
{
    let all = tree::finished_children(n);
    law_sorted_in_order(all);
    let child = tree::finished(n).children[i];
    assert(tree::sorted(all).contains(child));
    lemma_sorted_contains(all, child);
    choose|k: int| 0 <= k < all.len() && all[k] == child
}

/// Every row of siblings in the tree is in order.
pub open spec fn everywhere_in_order(n: NodeView) -> bool
    decreases n,
{
    &&& in_order(n.children)
    &&& forall|i: int| 0 <= i < n.children.len() ==> everywhere_in_order(#[trigger] n.children[i])
}

/// Every folder in the tree carries the sum of the file sizes below it.
pub open spec fn everywhere_summed(n: NodeView) -> bool
    decreases n,
{
    &&& n.file is None ==> n.size == tree::weight(n)
    &&& forall|i: int| 0 <= i < n.children.len() ==> everywhere_summed(#[trigger] n.children[i])
}

/// In a finished tree all siblings are in order.
pub proof fn law_finish_orders(n: NodeView)
    ensures
        everywhere_in_order(tree::finished(n)),
    decreases n,
{
    let after = tree::finished(n);
    law_sorted_in_order(tree::finished_children(n));
    assert forall|i: int| 0 <= i < after.children.len() implies everywhere_in_order(
        #[trigger] after.children[i],
    ) by {
        let k = lemma_finished_child(n, i);
        law_finish_orders(n.children[k]);
    }
}

/// Finishing a finished tree changes nothing.
pub proof fn law_finish_twice(n: NodeView)
    ensures
        tree::finished(tree::finished(n)) == tree::finished(n),
    decreases n,
{
    let after = tree::finished(n);
    let again = tree::finished_children(after);
    assert forall|i: int| 0 <= i < after.children.len() implies again[i] == after.children[i] by {
        let k = lemma_finished_child(n, i);
        law_finish_twice(n.children[k]);
    }
    assert(again =~= after.children);
    law_sorted_in_order(tree::finished_children(n));
    law_sorting_sorted_changes_nothing(after.children);
}

proof fn lemma_weight_push(nodes: Seq<NodeView>, n: NodeView)
    ensures
        tree::weight_all(nodes.push(n)) == tree::weight_all(nodes) + tree::weight(n),
        tree::file_count_all(nodes.push(n)) == tree::file_count_all(nodes) + tree::file_count(n),
        tree::selected_count_all(nodes.push(n)) == tree::selected_count_all(nodes)
            + tree::selected_count(n),
        selected_bag_all(nodes.push(n)) == selected_bag_all(nodes).add(selected_bag(n)),
{
    assert(nodes.push(n).drop_last() =~= nodes);
}

/// The selected files of a tree, without their order.
pub open spec fn selected_bag(n: NodeView) -> Multiset<RepoFileView>
    decreases n,
{
    (if n.file is Some && n.selected {
        Multiset::singleton(n.file->0)
    } else {
        Multiset::empty()
    }).add(selected_bag_all(n.children))
}

pub open spec fn selected_bag_all(nodes: Seq<NodeView>) -> Multiset<RepoFileView>
    decreases nodes,
{
    if nodes.len() == 0 {
        Multiset::empty()
    } else {
        selected_bag_all(nodes.drop_last()).add(selected_bag(nodes.last()))
    }
}

proof fn lemma_concat_multiset<A>(a: Seq<A>, b: Seq<A>)
    ensures
        (a + b).to_multiset() == a.to_multiset().add(b.to_multiset()),
    decreases b.len(),
{
    if b.len() == 0 {
        assert(a + b =~= a);
        b.to_multiset_ensures();
        assert(a.to_multiset().add(b.to_multiset()) =~= a.to_multiset());
    } else {
        lemma_concat_multiset(a, b.drop_last());
        (a + b.drop_last()).to_multiset_ensures();
        b.drop_last().to_multiset_ensures();
        assert((a + b.drop_last()).push(b.last()) =~= a + b);
        assert(b.drop_last().push(b.last()) =~= b);
        assert((a + b).to_multiset() =~= a.to_multiset().add(b.to_multiset()));
    }
}

/// What is collected from a tree are its selected files, each as often as it is there.
pub proof fn law_collected_files(n: NodeView)
    ensures
        tree::selected_files(n).to_multiset() == selected_bag(n),
    decreases n,
{
    lemma_collected_files_all(n.children);
    let own = if n.file is Some && n.selected {
        seq![n.file->0]
    } else {
        Seq::empty()
    };
    lemma_concat_multiset(own, tree::selected_files_all(n.children));
    Seq::<RepoFileView>::empty().to_multiset_ensures();
    if n.file is Some && n.selected {
        assert(own =~= Seq::empty().push(n.file->0));
        assert(own.to_multiset() =~= Multiset::singleton(n.file->0));
    } else {
        assert(own.to_multiset() =~= Multiset::empty());
    }
}

proof fn lemma_collected_files_all(nodes: Seq<NodeView>)
    ensures
        tree::selected_files_all(nodes).to_multiset() == selected_bag_all(nodes),
    decreases nodes,
{
    Seq::<RepoFileView>::empty().to_multiset_ensures();
    if nodes.len() > 0 {
        lemma_collected_files_all(nodes.drop_last());
        law_collected_files(nodes.last());
        lemma_concat_multiset(
            tree::selected_files_all(nodes.drop_last()),
            tree::selected_files(nodes.last()),
        );
    } else {
        assert(tree::selected_files_all(nodes).to_multiset() =~= Multiset::empty());
    }
}

proof fn lemma_sorted_with_keeps(nodes: Seq<NodeView>, n: NodeView)
    ensures
        tree::weight_all(tree::sorted_with(nodes, n)) == tree::weight_all(nodes) + tree::weight(n),
        tree::file_count_all(tree::sorted_with(nodes, n)) == tree::file_count_all(nodes)
            + tree::file_count(n),
        tree::selected_count_all(tree::sorted_with(nodes, n)) == tree::selected_count_all(nodes)
            + tree::selected_count(n),
        selected_bag_all(tree::sorted_with(nodes, n)) == selected_bag_all(nodes).add(
            selected_bag(n),
        ),
    decreases nodes.len(),
{
    lemma_weight_push(nodes, n);
    if nodes.len() > 0 && tree::node_less(n, nodes.last()) {
        let front = tree::sorted_with(nodes.drop_last(), n);
        lemma_sorted_with_keeps(nodes.drop_last(), n);
        lemma_weight_push(front, nodes.last());
        assert(selected_bag_all(front.push(nodes.last())) =~= selected_bag_all(nodes).add(
            selected_bag(n),
        ));
    }
}

proof fn lemma_sorted_keeps(nodes: Seq<NodeView>)
    ensures
        tree::weight_all(tree::sorted(nodes)) == tree::weight_all(nodes),
        tree::file_count_all(tree::sorted(nodes)) == tree::file_count_all(nodes),
        tree::selected_count_all(tree::sorted(nodes)) == tree::selected_count_all(nodes),
        selected_bag_all(tree::sorted(nodes)) == selected_bag_all(nodes),
    decreases nodes.len(),
{
    if nodes.len() > 0 {
        lemma_sorted_keeps(nodes.drop_last());
        lemma_sorted_with_keeps(tree::sorted(nodes.drop_last()), nodes.last());
    }
}

/// Finishing a tree loses no file, adds none, and changes no selection.
pub proof fn law_finish_keeps_files(n: NodeView)
    ensures
        tree::weight(tree::finished(n)) == tree::weight(n),
        tree::file_count(tree::finished(n)) == tree::file_count(n),
        tree::selected_count(tree::finished(n)) == tree::selected_count(n),
        selected_bag(tree::finished(n)) == selected_bag(n),
    decreases n,
{
    tree::lemma_finished_children(n);
    lemma_finish_keeps_files_all(n.children);
    lemma_sorted_keeps(tree::finished_children(n));
}

proof fn lemma_finish_keeps_files_all(nodes: Seq<NodeView>)
    ensures
        tree::weight_all(tree::finished_all(nodes)) == tree::weight_all(nodes),
        tree::file_count_all(tree::finished_all(nodes)) == tree::file_count_all(nodes),
        tree::selected_count_all(tree::finished_all(nodes)) == tree::selected_count_all(nodes),
        selected_bag_all(tree::finished_all(nodes)) == selected_bag_all(nodes),
    decreases nodes,
{
    if nodes.len() > 0 {
        lemma_finish_keeps_files_all(nodes.drop_last());
        law_finish_keeps_files(nodes.last());
        assert(tree::finished_all(nodes).drop_last() =~= tree::finished_all(nodes.drop_last()));
    }
}

/// In a finished tree every folder carries the sum of the sizes of the files below it.
pub proof fn law_finish_sums(n: NodeView)
    requires
        tree::fits(n),
    ensures
        everywhere_summed(tree::finished(n)),
        tree::finished(n).size == tree::weight(n),
    decreases n,
{
    let after = tree::finished(n);
    tree::lemma_finished_weight(n);
    law_finish_keeps_files(n);
    assert forall|i: int| 0 <= i < after.children.len() implies everywhere_summed(
        #[trigger] after.children[i],
    ) by {
        let k = lemma_finished_child(n, i);
        assert(tree::fits(n.children[k]));
        law_finish_sums(n.children[k]);
    }
}

/// A finished tree can be finished again: every folder's size still fits.
pub proof fn law_finished_tree_fits(n: NodeView)
    requires
        tree::fits(n),
    ensures
        tree::fits(tree::finished(n)),
    decreases n,
{
    let after = tree::finished(n);
    law_finish_keeps_files(n);
    assert forall|i: int| 0 <= i < after.children.len() implies tree::fits(
        #[trigger] after.children[i],
    ) by {
        let k = lemma_finished_child(n, i);
        assert(tree::fits(n.children[k]));
        law_finished_tree_fits(n.children[k]);
    }
}

/// Finishing a tree leaves files without children.
pub proof fn law_finish_keeps_well_formed(n: NodeView)
    requires
        tree::well_formed(n),
    ensures
        tree::well_formed(tree::finished(n)),
    decreases n,
{
    let after = tree::finished(n);
    law_sorted_in_order(tree::finished_children(n));
    assert forall|i: int| 0 <= i < after.children.len() implies tree::well_formed(
        #[trigger] after.children[i],
    ) by {
        let k = lemma_finished_child(n, i);
        assert(tree::well_formed(n.children[k]));
        law_finish_keeps_well_formed(n.children[k]);
    }
}

/// Selecting or deselecting leaves files without children.
pub proof fn law_set_selected_keeps_well_formed(n: NodeView, selected: bool)
    requires
        tree::well_formed(n),
    ensures
        tree::well_formed(tree::with_selection(n, selected)),
    decreases n,
{
    let after = tree::with_selection(n, selected);
    assert forall|i: int| 0 <= i < after.children.len() implies tree::well_formed(
        #[trigger] after.children[i],
    ) by {
        assert(tree::well_formed(n.children[i]));
        law_set_selected_keeps_well_formed(n.children[i], selected);
    }
}

/// Selecting a node selects every file below it, and deselecting it deselects every file below
/// it; the files stay the same.
pub proof fn law_set_selected_reaches_all(n: NodeView, selected: bool)
    ensures
        tree::file_count(tree::with_selection(n, selected)) == tree::file_count(n),
        tree::selected_count(tree::with_selection(n, selected)) == if selected {
            tree::file_count(n)
        } else {
            0
        },
        !selected ==> tree::selected_files(tree::with_selection(n, selected)).len() == 0,
    decreases n,
{
    let after = tree::with_selection(n, selected);
    lemma_set_selected_all(n.children, after.children, selected);
}

proof fn lemma_set_selected_all(nodes: Seq<NodeView>, after: Seq<NodeView>, selected: bool)
    requires
        after.len() == nodes.len(),
        forall|i: int|
            0 <= i < nodes.len() ==> #[trigger] after[i] == tree::with_selection(
                nodes[i],
                selected,
            ),
    ensures
        tree::file_count_all(after) == tree::file_count_all(nodes),
        tree::selected_count_all(after) == if selected {
            tree::file_count_all(nodes)
        } else {
            0
        },
        !selected ==> tree::selected_files_all(after).len() == 0,
    decreases nodes,
{
    if nodes.len() > 0 {
        assert(after.last() == tree::with_selection(nodes[nodes.len() - 1], selected));
        law_set_selected_reaches_all(nodes.last(), selected);
        assert forall|i: int| 0 <= i < nodes.len() - 1 implies #[trigger] after.drop_last()[i]
            == tree::with_selection(nodes.drop_last()[i], selected) by {
            assert(after[i] == tree::with_selection(nodes[i], selected));
        }
        lemma_set_selected_all(nodes.drop_last(), after.drop_last(), selected);
    }
}

/// The last selection wins.
pub proof fn law_set_selected_overrides(n: NodeView, first: bool, second: bool)
    ensures
        tree::with_selection(tree::with_selection(n, first), second) == tree::with_selection(
            n,
            second,
        ),
    decreases n,
{
    let once = tree::with_selection(n, first);
    let twice = tree::with_selection(once, second);
    assert forall|i: int| 0 <= i < n.children.len() implies #[trigger] twice.children[i]
        == tree::with_selection(n, second).children[i] by {
        assert(once.children[i] == tree::with_selection(n.children[i], first));
        law_set_selected_overrides(n.children[i], first, second);
    }
    assert(twice.children =~= tree::with_selection(n, second).children);
}

/// As many files are collected as are counted as selected.
pub proof fn law_collected_as_counted(n: NodeView)
    requires
        tree::well_formed(n),
    ensures
        tree::selected_files(n).len() == tree::selected_count(n),
    decreases n,
{
    if n.file is None {
        assert forall|i: int| 0 <= i < n.children.len() implies tree::well_formed(
            #[trigger] n.children[i],
        ) by {}
        lemma_collected_as_counted_all(n.children);
    }
}

proof fn lemma_collected_as_counted_all(nodes: Seq<NodeView>)
    requires
        forall|i: int| 0 <= i < nodes.len() ==> tree::well_formed(#[trigger] nodes[i]),
    ensures
        tree::selected_files_all(nodes).len() == tree::selected_count_all(nodes),
    decreases nodes,
{
    if nodes.len() > 0 {
        assert(tree::well_formed(nodes[nodes.len() - 1]));
        law_collected_as_counted(nodes.last());
        lemma_collected_as_counted_all(nodes.drop_last());
    }
}

proof fn lemma_update_sums(nodes: Seq<NodeView>, i: int, n: NodeView)
    requires
        0 <= i < nodes.len(),
    ensures
        tree::file_count_all(nodes.update(i, n)) + tree::file_count(nodes[i])
            == tree::file_count_all(nodes) + tree::file_count(n),
        tree::selected_count_all(nodes.update(i, n)) + tree::selected_count(nodes[i])
            == tree::selected_count_all(nodes) + tree::selected_count(n),
        selected_bag_all(nodes.update(i, n)).add(selected_bag(nodes[i])) == selected_bag_all(
            nodes,
        ).add(selected_bag(n)),
    decreases nodes.len(),
{
    let after = nodes.update(i, n);
    if i == nodes.len() - 1 {
        assert(after.drop_last() =~= nodes.drop_last());
    } else {
        assert(after.drop_last() =~= nodes.drop_last().update(i, n));
        lemma_update_sums(nodes.drop_last(), i, n);
    }
    assert(selected_bag_all(after).add(selected_bag(nodes[i])) =~= selected_bag_all(nodes).add(
        selected_bag(n),
    )) by {
        if i < nodes.len() - 1 {
            let rest = nodes.drop_last();
            assert forall|f: RepoFileView|
                #[trigger] selected_bag_all(after).add(selected_bag(nodes[i])).count(f)
                    == selected_bag_all(nodes).add(selected_bag(n)).count(f) by {
                assert(selected_bag_all(rest.update(i, n)).add(selected_bag(rest[i])).count(f)
                    == selected_bag_all(rest).add(selected_bag(n)).count(f));
            }
        }
    }
}

/// Inserting a file adds that one file, selected, and nothing else.
pub proof fn law_insert_adds_file(
    n: NodeView,
    parts: Seq<Seq<char>>,
    full: Seq<char>,
    file: RepoFileView,
)
    requires
        n.file is None,
        parts.len() > 0,
    ensures
        selected_bag(tree::inserted(n, parts, full, file)) == selected_bag(n).insert(file),
        tree::file_count(tree::inserted(n, parts, full, file)) == tree::file_count(n) + 1,
        tree::selected_count(tree::inserted(n, parts, full, file)) == tree::selected_count(n) + 1,
        tree::inserted(n, parts, full, file).file is None,
    decreases parts.len(),
{
    let after = tree::inserted(n, parts, full, file);
    if parts.len() == 1 {
        let leaf = tree::leaf_view(parts[0], full, file);
        lemma_weight_push(n.children, leaf);
        assert(selected_bag(leaf) =~= Multiset::singleton(file));
        assert(selected_bag(after) =~= selected_bag(n).insert(file));
    } else {
        tree::lemma_folder_position_is_folder(n.children, parts[0]);
        match tree::folder_position(n.children, parts[0]) {
            Some(i) => {
                let child = tree::inserted(n.children[i], parts.skip(1), full, file);
                law_insert_adds_file(n.children[i], parts.skip(1), full, file);
                lemma_update_sums(n.children, i, child);
                assert forall|f: RepoFileView|
                    #[trigger] selected_bag(after).count(f) == selected_bag(n).insert(
                        file,
                    ).count(f) by {
                    assert(selected_bag_all(after.children).add(
                        selected_bag(n.children[i]),
                    ).count(f) == selected_bag_all(n.children).add(selected_bag(child)).count(f));
                }
                assert(selected_bag(after) =~= selected_bag(n).insert(file));
            },
            None => {
                let folder = tree::folder_view(
                    parts[0],
                    tree::folder_path(full, parts.skip(1)),
                );
                law_insert_adds_file(folder, parts.skip(1), full, file);
                lemma_weight_push(
                    n.children,
                    tree::inserted(folder, parts.skip(1), full, file),
                );
                assert(selected_bag(folder) =~= Multiset::empty());
                assert(selected_bag(after) =~= selected_bag(n).insert(file));
            },
        }
    }
}

proof fn lemma_listed_files(id: Seq<char>, files: Seq<RepoFileView>)
    ensures
        selected_bag(tree::listed(tree::empty_root(id), files)) == files.to_multiset(),
        tree::file_count(tree::listed(tree::empty_root(id), files)) == files.len(),
        tree::selected_count(tree::listed(tree::empty_root(id), files)) == files.len(),
        tree::listed(tree::empty_root(id), files).file is None,
    decreases files.len(),
{
    files.to_multiset_ensures();
    if files.len() == 0 {
        assert(selected_bag(tree::empty_root(id)) =~= Multiset::empty());
        assert(files.to_multiset() =~= Multiset::empty());
    } else {
        lemma_listed_files(id, files.drop_last());
        text::law_join_of_pieces(files.last().path, '/');
        law_insert_adds_file(
            tree::listed(tree::empty_root(id), files.drop_last()),
            text::pieces(files.last().path, '/'),
            files.last().path,
            files.last(),
        );
        files.drop_last().to_multiset_ensures();
        assert(files.drop_last().push(files.last()) =~= files);
    }
}

/// The tree of a repository starts out with all its files selected: collecting gives every
/// listed file, each as often as it was listed, and nothing else.
pub proof fn law_tree_holds_listed_files(id: Seq<char>, files: Seq<RepoFileView>)
    ensures
        tree::selected_files(tree::repository_tree(id, files)).to_multiset()
            == files.to_multiset(),
        tree::file_count(tree::repository_tree(id, files)) == files.len(),
        tree::selected_count(tree::repository_tree(id, files)) == files.len(),
{
    lemma_listed_files(id, files);
    law_finish_keeps_files(tree::listed(tree::empty_root(id), files));
    law_collected_files(tree::repository_tree(id, files));
}

/// The root of a repository's tree carries the sum of the sizes of its files, and every folder
/// the sum of those below it.
pub proof fn law_tree_sizes(id: Seq<char>, files: Seq<RepoFileView>)
    requires
        tree::known_sizes(files) <= u64::MAX,
    ensures
        tree::repository_tree(id, files).size == tree::known_sizes(files),
        everywhere_summed(tree::repository_tree(id, files)),
        everywhere_in_order(tree::repository_tree(id, files)),
{
    tree::law_listed_weight(id, files);
    tree::lemma_weight_fits(tree::listed(tree::empty_root(id), files));
    law_finish_sums(tree::listed(tree::empty_root(id), files));
    law_finish_orders(tree::listed(tree::empty_root(id), files));
}

/// Everything below a node that stands at `at` has the path that leads to it: a folder the names
/// on the way joined by slashes, a file a path that falls apart into the names on the way.
pub open spec fn placed(n: NodeView, at: Seq<Seq<char>>) -> bool
    decreases n, 0nat,
{
    forall|i: int| 0 <= i < n.children.len() ==> child_placed(#[trigger] n.children[i], at)
}

pub open spec fn child_placed(child: NodeView, at: Seq<Seq<char>>) -> bool
    decreases child, 1nat,
{
    match child.file {
        Some(_) => text::pieces(child.path, '/') == at.push(child.name),
        None => child.path == text::joined(at.push(child.name), seq!['/']) && placed(
            child,
            at.push(child.name),
        ),
    }
}

/// Every file in the tree stands there under the path that the file itself names.
pub open spec fn under_own_paths(n: NodeView) -> bool
    decreases n,
{
    forall|i: int|
        0 <= i < n.children.len() ==> {
            &&& (#[trigger] n.children[i]).file matches Some(file) ==> n.children[i].path
                == file.path
            &&& under_own_paths(n.children[i])
        }
}

/// A folder below the node has a file in it or further down.
pub open spec fn no_empty_folders(n: NodeView) -> bool
    decreases n,
{
    forall|i: int|
        0 <= i < n.children.len() ==> {
            &&& (#[trigger] n.children[i]).file is None ==> tree::file_count(n.children[i]) > 0
            &&& no_empty_folders(n.children[i])
        }
}

/// Inserting a file under the pieces of its path from the `k`th on, at the node that the first
/// `k` pieces lead to, leaves everything with the path that leads to it.
pub proof fn law_insert_keeps_paths(n: NodeView, full: Seq<char>, k: int, file: RepoFileView)
    requires
        0 <= k < text::pieces(full, '/').len(),
        placed(n, text::pieces(full, '/').take(k)),
    ensures
        placed(
            tree::inserted(n, text::pieces(full, '/').skip(k), full, file),
            text::pieces(full, '/').take(k),
        ),
    decreases text::pieces(full, '/').len() - k,
{
    let all = text::pieces(full, '/');
    let parts = all.skip(k);
    let at = all.take(k);
    let after = tree::inserted(n, parts, full, file);
    let name = parts[0];
    assert(at.push(name) =~= all.take(k + 1));
    assert(parts.skip(1) =~= all.skip(k + 1));
    if parts.len() == 1 {
        assert(all.take(k + 1) =~= all);
        assert forall|i: int| 0 <= i < after.children.len() implies child_placed(
            #[trigger] after.children[i],
            at,
        ) by {
            if i < n.children.len() {
                assert(child_placed(n.children[i], at));
            }
        }
    } else {
        tree::lemma_folder_position_is_folder(n.children, name);
        match tree::folder_position(n.children, name) {
            Some(p) => {
                assert(child_placed(n.children[p], at));
                law_insert_keeps_paths(n.children[p], full, k + 1, file);
                assert forall|i: int| 0 <= i < after.children.len() implies child_placed(
                    #[trigger] after.children[i],
                    at,
                ) by {
                    if i != p {
                        assert(child_placed(n.children[i], at));
                    }
                }
            },
            None => {
                let folder = tree::folder_view(name, tree::folder_path(full, parts.skip(1)));
                tree::lemma_folder_path(full, k + 1);
                law_insert_keeps_paths(folder, full, k + 1, file);
                assert forall|i: int| 0 <= i < after.children.len() implies child_placed(
                    #[trigger] after.children[i],
                    at,
                ) by {
                    if i < n.children.len() {
                        assert(child_placed(n.children[i], at));
                    }
                }
            },
        }
    }
}

/// Inserting a file under the path that it names keeps every file under its own path.
pub proof fn law_insert_keeps_own_paths(
    n: NodeView,
    parts: Seq<Seq<char>>,
    full: Seq<char>,
    file: RepoFileView,
)
    requires
        file.path == full,
        under_own_paths(n),
    ensures
        under_own_paths(tree::inserted(n, parts, full, file)),
    decreases parts.len(),
{
    let after = tree::inserted(n, parts, full, file);
    if parts.len() > 1 {
        tree::lemma_folder_position_is_folder(n.children, parts[0]);
        match tree::folder_position(n.children, parts[0]) {
            Some(p) => {
                law_insert_keeps_own_paths(n.children[p], parts.skip(1), full, file);
            },
            None => {
                let folder = tree::folder_view(
                    parts[0],
                    tree::folder_path(full, parts.skip(1)),
                );
                law_insert_keeps_own_paths(folder, parts.skip(1), full, file);
            },
        }
    }
    assert forall|i: int| 0 <= i < after.children.len() implies {
        &&& (#[trigger] after.children[i]).file matches Some(f) ==> after.children[i].path == f.path
        &&& under_own_paths(after.children[i])
    } by {
        if i < n.children.len() && after.children[i] != n.children[i] {
            assert(under_own_paths(n.children[i]));
        }
    }
}

/// Inserting a file leaves no folder empty.
pub proof fn law_insert_leaves_no_empty_folder(
    n: NodeView,
    parts: Seq<Seq<char>>,
    full: Seq<char>,
    file: RepoFileView,
)
    requires
        no_empty_folders(n),
    ensures
        no_empty_folders(tree::inserted(n, parts, full, file)),
    decreases parts.len(),
{
    let after = tree::inserted(n, parts, full, file);
    if parts.len() > 1 {
        tree::lemma_folder_position_is_folder(n.children, parts[0]);
        match tree::folder_position(n.children, parts[0]) {
            Some(p) => {
                law_insert_leaves_no_empty_folder(n.children[p], parts.skip(1), full, file);
                law_insert_adds_file(n.children[p], parts.skip(1), full, file);
            },
            None => {
                let folder = tree::folder_view(
                    parts[0],
                    tree::folder_path(full, parts.skip(1)),
                );
                law_insert_leaves_no_empty_folder(folder, parts.skip(1), full, file);
                law_insert_adds_file(folder, parts.skip(1), full, file);
            },
        }
    }
    assert forall|i: int| 0 <= i < after.children.len() implies {
        &&& (#[trigger] after.children[i]).file is None ==> tree::file_count(after.children[i]) > 0
        &&& no_empty_folders(after.children[i])
    } by {
        if i < n.children.len() && after.children[i] != n.children[i] {
            assert(no_empty_folders(n.children[i]));
        }
    }
}

proof fn lemma_finish_keeps_own_paths(n: NodeView)
    requires
        under_own_paths(n),
    ensures
        under_own_paths(tree::finished(n)),
    decreases n,
{
    let after = tree::finished(n);
    assert forall|i: int| 0 <= i < after.children.len() implies {
        &&& (#[trigger] after.children[i]).file matches Some(f) ==> after.children[i].path == f.path
        &&& under_own_paths(after.children[i])
    } by {
        let k = lemma_finished_child(n, i);
        assert(under_own_paths(n.children[k]));
        lemma_finish_keeps_own_paths(n.children[k]);
    }
}

proof fn lemma_finish_leaves_no_empty_folder(n: NodeView)
    requires
        no_empty_folders(n),
    ensures
        no_empty_folders(tree::finished(n)),
    decreases n,
{
    let after = tree::finished(n);
    assert forall|i: int| 0 <= i < after.children.len() implies {
        &&& (#[trigger] after.children[i]).file is None ==> tree::file_count(after.children[i]) > 0
        &&& no_empty_folders(after.children[i])
    } by {
        let k = lemma_finished_child(n, i);
        assert(no_empty_folders(n.children[k]));
        law_finish_keeps_files(n.children[k]);
        lemma_finish_leaves_no_empty_folder(n.children[k]);
    }
}

proof fn lemma_finish_places(n: NodeView, at: Seq<Seq<char>>)
    requires
        placed(n, at),
    ensures
        placed(tree::finished(n), at),
    decreases n,
{
    let after = tree::finished(n);
    assert forall|i: int| 0 <= i < after.children.len() implies child_placed(
        #[trigger] after.children[i],
        at,
    ) by {
        let k = lemma_finished_child(n, i);
        assert(child_placed(n.children[k], at));
        if n.children[k].file is None {
            lemma_finish_places(n.children[k], at.push(n.children[k].name));
        }
    }
}

/// How many of the nodes are folders with the given name.
pub open spec fn folders_named(nodes: Seq<NodeView>, name: Seq<char>) -> nat
    decreases nodes.len(),
{
    if nodes.len() == 0 {
        0
    } else {
        folders_named(nodes.drop_last(), name) + if nodes.last().file is None && nodes.last().name
            == name {
            1nat
        } else {
            0
        }
    }
}

/// No two folders next to each other have the same name, here and everywhere below.
pub open spec fn folders_distinct(n: NodeView) -> bool
    decreases n,
{
    &&& forall|name: Seq<char>| #[trigger] folders_named(n.children, name) <= 1
    &&& forall|i: int| 0 <= i < n.children.len() ==> folders_distinct(#[trigger] n.children[i])
}

proof fn lemma_folders_push(nodes: Seq<NodeView>, n: NodeView, name: Seq<char>)
    ensures
        folders_named(nodes.push(n), name) == folders_named(nodes, name) + if n.file is None
            && n.name == name {
            1nat
        } else {
            0
        },
{
    assert(nodes.push(n).drop_last() =~= nodes);
}

proof fn lemma_folders_update(nodes: Seq<NodeView>, i: int, n: NodeView, name: Seq<char>)
    requires
        0 <= i < nodes.len(),
        n.file is None,
        nodes[i].file is None,
        n.name == nodes[i].name,
    ensures
        folders_named(nodes.update(i, n), name) == folders_named(nodes, name),
    decreases nodes.len(),
{
    if i == nodes.len() - 1 {
        assert(nodes.update(i, n).drop_last() =~= nodes.drop_last());
    } else {
        assert(nodes.update(i, n).drop_last() =~= nodes.drop_last().update(i, n));
        lemma_folders_update(nodes.drop_last(), i, n, name);
    }
}

proof fn lemma_no_folder_named(nodes: Seq<NodeView>, name: Seq<char>)
    requires
        tree::folder_position(nodes, name) is None,
    ensures
        folders_named(nodes, name) == 0,
    decreases nodes.len(),
{
    if nodes.len() > 0 {
        lemma_no_folder_named(nodes.drop_last(), name);
    }
}

/// Inserting a file adds no second folder of the same name next to another one.
pub proof fn law_insert_shares_folders(
    n: NodeView,
    parts: Seq<Seq<char>>,
    full: Seq<char>,
    file: RepoFileView,
)
    requires
        folders_distinct(n),
    ensures
        folders_distinct(tree::inserted(n, parts, full, file)),
    decreases parts.len(),
{
    let after = tree::inserted(n, parts, full, file);
    if parts.len() == 1 {
        let leaf = tree::leaf_view(parts[0], full, file);
        assert forall|name: Seq<char>| #[trigger] folders_named(after.children, name) <= 1 by {
            lemma_folders_push(n.children, leaf, name);
            assert(folders_named(n.children, name) <= 1);
        }
        assert forall|i: int| 0 <= i < after.children.len() implies folders_distinct(
            #[trigger] after.children[i],
        ) by {
            if i < n.children.len() {
                assert(folders_distinct(n.children[i]));
            } else {
                assert forall|name: Seq<char>| #[trigger]
                    folders_named(leaf.children, name) <= 1 by {}
            }
        }
    } else if parts.len() > 1 {
        tree::lemma_folder_position_is_folder(n.children, parts[0]);
        match tree::folder_position(n.children, parts[0]) {
            Some(p) => {
                let child = tree::inserted(n.children[p], parts.skip(1), full, file);
                assert(folders_distinct(n.children[p]));
                law_insert_shares_folders(n.children[p], parts.skip(1), full, file);
                assert forall|name: Seq<char>| #[trigger]
                    folders_named(after.children, name) <= 1 by {
                    lemma_folders_update(n.children, p, child, name);
                    assert(folders_named(n.children, name) <= 1);
                }
                assert forall|i: int| 0 <= i < after.children.len() implies folders_distinct(
                    #[trigger] after.children[i],
                ) by {
                    if i != p {
                        assert(folders_distinct(n.children[i]));
                    }
                }
            },
            None => {
                let folder = tree::folder_view(
                    parts[0],
                    tree::folder_path(full, parts.skip(1)),
                );
                let child = tree::inserted(folder, parts.skip(1), full, file);
                law_insert_shares_folders(folder, parts.skip(1), full, file);
                lemma_no_folder_named(n.children, parts[0]);
                assert forall|name: Seq<char>| #[trigger]
                    folders_named(after.children, name) <= 1 by {
                    lemma_folders_push(n.children, child, name);
                    assert(folders_named(n.children, name) <= 1);
                }
                assert forall|i: int| 0 <= i < after.children.len() implies folders_distinct(
                    #[trigger] after.children[i],
                ) by {
                    if i < n.children.len() {
                        assert(folders_distinct(n.children[i]));
                    }
                }
            },
        }
    }
}

proof fn lemma_folders_sorted_with(nodes: Seq<NodeView>, n: NodeView, name: Seq<char>)
    ensures
        folders_named(tree::sorted_with(nodes, n), name) == folders_named(nodes.push(n), name),
    decreases nodes.len(),
{
    if nodes.len() > 0 && tree::node_less(n, nodes.last()) {
        let front = tree::sorted_with(nodes.drop_last(), n);
        lemma_folders_sorted_with(nodes.drop_last(), n, name);
        lemma_folders_push(front, nodes.last(), name);
        lemma_folders_push(nodes.drop_last(), n, name);
        lemma_folders_push(nodes, n, name);
    }
}

proof fn lemma_folders_sorted(nodes: Seq<NodeView>, name: Seq<char>)
    ensures
        folders_named(tree::sorted(nodes), name) == folders_named(nodes, name),
    decreases nodes.len(),
{
    if nodes.len() > 0 {
        let front = tree::sorted(nodes.drop_last());
        lemma_folders_sorted(nodes.drop_last(), name);
        lemma_folders_sorted_with(front, nodes.last(), name);
        lemma_folders_push(front, nodes.last(), name);
    }
}

proof fn lemma_folders_finished_all(nodes: Seq<NodeView>, name: Seq<char>)
    ensures
        folders_named(tree::finished_all(nodes), name) == folders_named(nodes, name),
    decreases nodes.len(),
{
    if nodes.len() > 0 {
        lemma_folders_finished_all(nodes.drop_last(), name);
        assert(tree::finished_all(nodes).drop_last() =~= tree::finished_all(nodes.drop_last()));
    }
}

proof fn lemma_finish_keeps_distinct(n: NodeView)
    requires
        folders_distinct(n),
    ensures
        folders_distinct(tree::finished(n)),
    decreases n,
{
    let after = tree::finished(n);
    tree::lemma_finished_children(n);
    assert forall|name: Seq<char>| #[trigger] folders_named(after.children, name) <= 1 by {
        lemma_folders_sorted(tree::finished_all(n.children), name);
        lemma_folders_finished_all(n.children, name);
        assert(folders_named(n.children, name) <= 1);
    }
    assert forall|i: int| 0 <= i < after.children.len() implies folders_distinct(
        #[trigger] after.children[i],
    ) by {
        let k = lemma_finished_child(n, i);
        assert(folders_distinct(n.children[k]));
        lemma_finish_keeps_distinct(n.children[k]);
    }
}

/// After every insertion, while the files are listed: everything has the path that leads to it,
/// every file stands under its own path, no two folders next to each other have the same name, and
/// no folder is empty.
pub proof fn law_growing_tree(id: Seq<char>, files: Seq<RepoFileView>)
    ensures
        placed(tree::listed(tree::empty_root(id), files), Seq::empty()),
        under_own_paths(tree::listed(tree::empty_root(id), files)),
        folders_distinct(tree::listed(tree::empty_root(id), files)),
        no_empty_folders(tree::listed(tree::empty_root(id), files)),
    decreases files.len(),
{
    if files.len() > 0 {
        let full = files.last().path;
        let parts = text::pieces(full, '/');
        let before = tree::listed(tree::empty_root(id), files.drop_last());
        law_growing_tree(id, files.drop_last());
        text::law_join_of_pieces(full, '/');
        assert(parts.take(0) =~= Seq::<Seq<char>>::empty());
        assert(parts.skip(0) =~= parts);
        law_insert_keeps_paths(before, full, 0, files.last());
        law_insert_keeps_own_paths(before, parts, full, files.last());
        law_insert_shares_folders(before, parts, full, files.last());
        law_insert_leaves_no_empty_folder(before, parts, full, files.last());
    }
}

/// The tree keeps the structure of the repository: every file stands under its own path, in the
/// folders that the path names and under its own name, and every folder has the path that leads
/// to it and a file beneath it.
pub proof fn law_tree_keeps_paths(id: Seq<char>, files: Seq<RepoFileView>)
    ensures
        placed(tree::repository_tree(id, files), Seq::empty()),
        under_own_paths(tree::repository_tree(id, files)),
        no_empty_folders(tree::repository_tree(id, files)),
{
    let tree = tree::listed(tree::empty_root(id), files);
    law_growing_tree(id, files);
    lemma_finish_places(tree, Seq::empty());
    lemma_finish_keeps_own_paths(tree);
    lemma_finish_leaves_no_empty_folder(tree);
}

/// Files of one folder share it: a folder is there once.
pub proof fn law_tree_shares_folders(id: Seq<char>, files: Seq<RepoFileView>)
    ensures
        folders_distinct(tree::repository_tree(id, files)),
{
    law_growing_tree(id, files);
    lemma_finish_keeps_distinct(tree::listed(tree::empty_root(id), files));
}

/// `indices` lead down through folders only, up to the node that they end at.
pub open spec fn through_folders(n: NodeView, indices: Seq<usize>) -> bool
    decreases indices.len(),
{
    indices.len() > 0 ==> {
        &&& n.file is None
        &&& indices[0] < n.children.len()
        &&& through_folders(n.children[indices[0] as int], indices.skip(1))
    }
}

/// Neither way starts with the other.
pub open spec fn apart(a: Seq<usize>, b: Seq<usize>) -> bool
    decreases a.len(),
{
    a.len() > 0 && b.len() > 0 && (a[0] != b[0] || apart(a.skip(1), b.skip(1)))
}

/// Selecting or deselecting what `indices` lead to counts for exactly the files below it.
pub proof fn law_selecting_a_folder_counts_its_files(
    n: NodeView,
    indices: Seq<usize>,
    selected: bool,
)
    requires
        through_folders(n, indices),
    ensures
        ({
            let node = tree::node_at(n, indices);
            let after = tree::with_node(n, indices, tree::with_selection(node, selected));
            &&& tree::file_count(after) == tree::file_count(n)
            &&& tree::selected_count(after) + tree::selected_count(node) == tree::selected_count(n)
                + if selected {
                tree::file_count(node)
            } else {
                0
            }
        }),
    decreases indices.len(),
{
    let node = tree::node_at(n, indices);
    if indices.len() == 0 {
        law_set_selected_reaches_all(n, selected);
    } else {
        let i = indices[0] as int;
        let child = n.children[i];
        law_selecting_a_folder_counts_its_files(child, indices.skip(1), selected);
        lemma_update_sums(
            n.children,
            i,
            tree::with_node(child, indices.skip(1), tree::with_selection(node, selected)),
        );
    }
}

/// Putting a well-formed node in the place of another one leaves files without children.
pub proof fn law_change_keeps_well_formed(n: NodeView, indices: Seq<usize>, node: NodeView)
    requires
        tree::well_formed(n),
        tree::has_node(n, indices),
        tree::well_formed(node),
    ensures
        tree::well_formed(tree::node_at(n, indices)),
        tree::well_formed(tree::with_node(n, indices, node)),
    decreases indices.len(),
{
    if indices.len() > 0 {
        let i = indices[0] as int;
        let after = tree::with_node(n, indices, node);
        assert(tree::well_formed(n.children[i]));
        law_change_keeps_well_formed(n.children[i], indices.skip(1), node);
        assert forall|k: int| 0 <= k < after.children.len() implies tree::well_formed(
            #[trigger] after.children[k],
        ) by {
            if k != i {
                assert(tree::well_formed(n.children[k]));
            }
        }
    }
}

proof fn lemma_ways_lead_through_folders(n: NodeView, indices: Seq<usize>)
    requires
        tree::well_formed(n),
        tree::has_node(n, indices),
    ensures
        through_folders(n, indices),
    decreases indices.len(),
{
    if indices.len() > 0 {
        assert(tree::well_formed(n.children[indices[0] as int]));
        lemma_ways_lead_through_folders(n.children[indices[0] as int], indices.skip(1));
    }
}

/// What a user does to the tree of a repository.
pub enum TreeChange {
    /// Selects or deselects what `indices` lead to.
    Select { indices: Seq<usize>, selected: bool },
    /// Opens or closes what `indices` lead to.
    Fold { indices: Seq<usize>, expanded: bool },
}

/// The change is one of a node of the tree.
pub open spec fn can_change(n: NodeView, change: TreeChange) -> bool {
    match change {
        TreeChange::Select { indices, .. } => tree::has_node(n, indices),
        TreeChange::Fold { indices, .. } => tree::has_node(n, indices),
    }
}

/// The tree after a change.
pub open spec fn changed(n: NodeView, change: TreeChange) -> NodeView {
    match change {
        TreeChange::Select { indices, selected } => tree::with_node(
            n,
            indices,
            tree::with_selection(tree::node_at(n, indices), selected),
        ),
        TreeChange::Fold { indices, expanded } => tree::with_node(
            n,
            indices,
            NodeView { expanded, ..tree::node_at(n, indices) },
        ),
    }
}

/// The tree after some changes, one after the other.
pub open spec fn after_changes(n: NodeView, changes: Seq<TreeChange>) -> NodeView
    decreases changes.len(),
{
    if changes.len() == 0 {
        n
    } else {
        changed(after_changes(n, changes.drop_last()), changes.last())
    }
}

/// Every change is one of a node that is there.
pub open spec fn can_change_all(n: NodeView, changes: Seq<TreeChange>) -> bool
    decreases changes.len(),
{
    changes.len() > 0 ==> {
        &&& can_change_all(n, changes.drop_last())
        &&& can_change(after_changes(n, changes.drop_last()), changes.last())
    }
}

/// Opening or closing a node changes nothing of the files and of what is selected.
pub proof fn law_folding_keeps_files(n: NodeView, indices: Seq<usize>, expanded: bool)
    requires
        through_folders(n, indices),
    ensures
        ({
            let after = changed(n, TreeChange::Fold { indices, expanded });
            &&& tree::file_count(after) == tree::file_count(n)
            &&& tree::selected_count(after) == tree::selected_count(n)
            &&& tree::selected_files(after) == tree::selected_files(n)
        }),
    decreases indices.len(),
{
    let node = NodeView { expanded, ..tree::node_at(n, indices) };
    if indices.len() > 0 {
        let i = indices[0] as int;
        let child = tree::with_node(n.children[i], indices.skip(1), node);
        law_folding_keeps_files(n.children[i], indices.skip(1), expanded);
        lemma_update_sums(n.children, i, child);
        lemma_update_files(n.children, i, child);
    }
}

proof fn lemma_update_files(nodes: Seq<NodeView>, i: int, n: NodeView)
    requires
        0 <= i < nodes.len(),
        tree::selected_files(n) == tree::selected_files(nodes[i]),
    ensures
        tree::selected_files_all(nodes.update(i, n)) == tree::selected_files_all(nodes),
    decreases nodes.len(),
{
    let after = nodes.update(i, n);
    if i == nodes.len() - 1 {
        assert(after.drop_last() =~= nodes.drop_last());
    } else {
        assert(after.drop_last() =~= nodes.drop_last().update(i, n));
        lemma_update_files(nodes.drop_last(), i, n);
    }
}

/// A repository's tree in use, whatever was selected, deselected, opened and closed in it: files
/// have nothing below them, no file is lost or added, and as many files are collected as are
/// counted as selected.
pub proof fn law_tree_in_use(id: Seq<char>, files: Seq<RepoFileView>, changes: Seq<TreeChange>)
    requires
        can_change_all(tree::repository_tree(id, files), changes),
    ensures
        ({
            let n = after_changes(tree::repository_tree(id, files), changes);
            &&& tree::well_formed(n)
            &&& tree::file_count(n) == files.len()
            &&& tree::selected_files(n).len() == tree::selected_count(n)
            &&& tree::selected_count(n) <= files.len()
        }),
    decreases changes.len(),
{
    let start = tree::repository_tree(id, files);
    let n = after_changes(start, changes);
    if changes.len() == 0 {
        tree::law_listed_weight(id, files);
        law_finish_keeps_well_formed(tree::listed(tree::empty_root(id), files));
        law_tree_holds_listed_files(id, files);
    } else {
        let before = after_changes(start, changes.drop_last());
        law_tree_in_use(id, files, changes.drop_last());
        match changes.last() {
            TreeChange::Select { indices, selected } => {
                let node = tree::node_at(before, indices);
                law_change_keeps_well_formed(before, indices, before);
                law_set_selected_keeps_well_formed(node, selected);
                law_change_keeps_well_formed(
                    before,
                    indices,
                    tree::with_selection(node, selected),
                );
                lemma_ways_lead_through_folders(before, indices);
                law_selecting_a_folder_counts_its_files(before, indices, selected);
            },
            TreeChange::Fold { indices, expanded } => {
                let node = NodeView { expanded, ..tree::node_at(before, indices) };
                law_change_keeps_well_formed(before, indices, before);
                assert(tree::well_formed(node)) by {
                    assert forall|i: int| 0 <= i < node.children.len() implies tree::well_formed(
                        #[trigger] node.children[i],
                    ) by {
                        assert(tree::well_formed(tree::node_at(before, indices).children[i]));
                    }
                }
                law_change_keeps_well_formed(before, indices, node);
                lemma_ways_lead_through_folders(before, indices);
                law_folding_keeps_files(before, indices, expanded);
            },
        }
    }
    law_collected_as_counted(n);
    tree::lemma_selected_at_most_all(n);
}

/// Changing the node that `indices` lead to leaves every node alone to which another way leads.
pub proof fn law_change_stays_in_its_place(
    n: NodeView,
    indices: Seq<usize>,
    node: NodeView,
    other: Seq<usize>,
)
    requires
        tree::has_node(n, indices),
        tree::has_node(n, other),
        apart(indices, other),
    ensures
        tree::has_node(tree::with_node(n, indices, node), other),
        tree::node_at(tree::with_node(n, indices, node), other) == tree::node_at(n, other),
    decreases indices.len(),
{
    if indices[0] == other[0] {
        law_change_stays_in_its_place(
            n.children[indices[0] as int],
            indices.skip(1),
            node,
            other.skip(1),
        );
    }
}

/// A node that was put in some place is found there.
pub proof fn law_change_is_found(n: NodeView, indices: Seq<usize>, node: NodeView)
    requires
        tree::has_node(n, indices),
    ensures
        tree::has_node(tree::with_node(n, indices, node), indices),
        tree::node_at(tree::with_node(n, indices, node), indices) == node,
    decreases indices.len(),
{
    if indices.len() > 0 {
        law_change_is_found(n.children[indices[0] as int], indices.skip(1), node);
    }
}

} // verus!
