//! The tree of a repository's files and folders, and what is selected in it.

use crate::text;
use crate::tree_laws;
use vstd::prelude::*;
use vstd::slice::slice_subrange;
use vstd::string::*;
use vstd::utf8::*;

verus! {

/// A file of a repository, as the Hub lists it.
#[derive(Debug)]
pub struct RepoFile {
    pub path: String,
    pub size: Option<u64>,
    pub sha256: Option<String>,
}

/// What a [`RepoFile`] holds.
pub struct RepoFileView {
    pub path: Seq<char>,
    pub size: Option<u64>,
    pub sha256: Option<Seq<char>>,
}

impl View for RepoFile {
    type V = RepoFileView;

    open spec fn view(&self) -> RepoFileView {
        RepoFileView {
            path: self.path@,
            size: self.size,
            sha256: match self.sha256 {
                Some(s) => Some(s@),
                None => None,
            },
        }
    }
}

/// A folder or a file of the tree.
#[derive(Debug)]
pub struct Node {
    pub name: String,
    pub path: String,
    pub size: u64,
    pub file: Option<RepoFile>,
    pub selected: bool,
    pub expanded: bool,
    pub children: Vec<Node>,
}

/// What a [`Node`] holds.
#[verifier::ext_equal]
pub struct NodeView {
    pub name: Seq<char>,
    pub path: Seq<char>,
    pub size: u64,
    pub file: Option<RepoFileView>,
    pub selected: bool,
    pub expanded: bool,
    pub children: Seq<NodeView>,
}

/// The view of a node. The children are viewed one by one.
pub open spec fn node_view(n: Node) -> NodeView
    decreases n,
{
    NodeView {
        name: n.name@,
        path: n.path@,
        size: n.size,
        file: match n.file {
            Some(f) => Some(f@),
            None => None,
        },
        selected: n.selected,
        expanded: n.expanded,
        children: Seq::new(
            n.children@.len(),
            |i: int|
                if 0 <= i < n.children@.len() {
                    node_view(n.children@[i])
                } else {
                    arbitrary()
                },
        ),
    }
}

impl View for Node {
    type V = NodeView;

    open spec fn view(&self) -> NodeView {
        node_view(*self)
    }
}

/// The views of a row of nodes.
pub open spec fn node_views(nodes: Seq<Node>) -> Seq<NodeView> {
    nodes.map_values(|n: Node| node_view(n))
}

pub broadcast proof fn lemma_view_children(n: Node)
    ensures
        (#[trigger] node_view(n)).children == node_views(n.children@),
{
    assert(node_view(n).children =~= node_views(n.children@));
}

/// A folder without content. It starts out selected and folded up.
pub open spec fn folder_view(name: Seq<char>, path: Seq<char>) -> NodeView {
    NodeView {
        name,
        path,
        size: 0,
        file: None,
        selected: true,
        expanded: false,
        children: Seq::empty(),
    }
}

/// The node of a file. A file whose size is not known counts as empty.
pub open spec fn leaf_view(name: Seq<char>, path: Seq<char>, file: RepoFileView) -> NodeView {
    NodeView {
        name,
        path,
        size: match file.size {
            Some(size) => size,
            None => 0,
        },
        file: Some(file),
        selected: true,
        expanded: false,
        children: Seq::empty(),
    }
}

/// The position of the first folder with the given name.
pub open spec fn folder_position(nodes: Seq<NodeView>, name: Seq<char>) -> Option<int>
    decreases nodes.len(),
{
    if nodes.len() == 0 {
        None
    } else {
        match folder_position(nodes.drop_last(), name) {
            Some(i) => Some(i),
            None => if nodes.last().file is None && nodes.last().name == name {
                Some(nodes.len() - 1)
            } else {
                None
            },
        }
    }
}

/// The length in bytes of what is left of `full` in front of a slash and the parts `rest`.
pub open spec fn folder_bytes(full: Seq<char>, rest: Seq<Seq<char>>) -> int {
    encode_utf8(full).len() - encode_utf8(text::joined(rest, seq!['/'])).len() - 1
}

/// What is left of `full` in front of a slash and the parts `rest`.
pub open spec fn folder_path(full: Seq<char>, rest: Seq<Seq<char>>) -> Seq<char> {
    decode_utf8(encode_utf8(full).take(folder_bytes(full, rest)))
}

/// The folder paths on the way down `parts` can be cut out of `full`. This holds whenever `parts`
/// are the last pieces of `full` between slashes.
pub open spec fn insertable(parts: Seq<Seq<char>>, full: Seq<char>) -> bool
    decreases parts.len(),
{
    parts.len() > 1 ==> {
        &&& folder_bytes(full, parts.skip(1)) >= 0
        &&& is_char_boundary(encode_utf8(full), folder_bytes(full, parts.skip(1)))
        &&& insertable(parts.skip(1), full)
    }
}

/// The tree with one more file, in the folder that all but the last of `parts` lead to. Folders
/// that are not there yet are added after their siblings, and so is the file.
pub open spec fn inserted(
    n: NodeView,
    parts: Seq<Seq<char>>,
    full: Seq<char>,
    file: RepoFileView,
) -> NodeView
    decreases parts.len(),
{
    if parts.len() == 0 {
        n
    } else if parts.len() == 1 {
        NodeView { children: n.children.push(leaf_view(parts[0], full, file)), ..n }
    } else {
        match folder_position(n.children, parts[0]) {
            Some(i) => NodeView {
                children: n.children.update(
                    i,
                    inserted(n.children[i], parts.skip(1), full, file),
                ),
                ..n
            },
            None => NodeView {
                children: n.children.push(
                    inserted(
                        folder_view(parts[0], folder_path(full, parts.skip(1))),
                        parts.skip(1),
                        full,
                        file,
                    ),
                ),
                ..n
            },
        }
    }
}

/// The order of siblings: folders before files, and otherwise by lowercase name.
pub open spec fn node_less(a: NodeView, b: NodeView) -> bool {
    if (a.file is None) != (b.file is None) {
        a.file is None
    } else {
        text::lex_less(text::lowercase(a.name), text::lowercase(b.name))
    }
}

/// `n` put into a sorted row of nodes, behind all that do not come after it.
pub open spec fn sorted_with(nodes: Seq<NodeView>, n: NodeView) -> Seq<NodeView>
    decreases nodes.len(),
{
    if nodes.len() == 0 || !node_less(n, nodes.last()) {
        nodes.push(n)
    } else {
        sorted_with(nodes.drop_last(), n).push(nodes.last())
    }
}

/// The nodes in order, those that compare equal in the order in which they came.
pub open spec fn sorted(nodes: Seq<NodeView>) -> Seq<NodeView>
    decreases nodes.len(),
{
    if nodes.len() == 0 {
        nodes
    } else {
        sorted_with(sorted(nodes.drop_last()), nodes.last())
    }
}

/// The sum of the sizes that the nodes carry.
pub open spec fn size_sum(nodes: Seq<NodeView>) -> nat
    decreases nodes.len(),
{
    if nodes.len() == 0 {
        0
    } else {
        size_sum(nodes.drop_last()) + nodes.last().size as nat
    }
}

/// The tree with every folder sorted and every folder's size summed up.
pub open spec fn finished(n: NodeView) -> NodeView
    decreases n, 1nat,
{
    let children = sorted(finished_children(n));
    NodeView {
        children,
        size: if n.file is None {
            size_sum(children) as u64
        } else {
            n.size
        },
        ..n
    }
}

/// The children of a node, each of them finished.
pub open spec fn finished_children(n: NodeView) -> Seq<NodeView>
    decreases n, 0nat,
{
    Seq::new(
        n.children.len(),
        |i: int|
            if 0 <= i < n.children.len() {
                finished(n.children[i])
            } else {
                arbitrary()
            },
    )
}

pub open spec fn finished_all(nodes: Seq<NodeView>) -> Seq<NodeView> {
    nodes.map_values(|n: NodeView| finished(n))
}

/// The sizes of the files in the tree, summed up.
pub open spec fn weight(n: NodeView) -> nat
    decreases n,
{
    if n.file is Some {
        n.size as nat
    } else {
        weight_all(n.children)
    }
}

pub open spec fn weight_all(nodes: Seq<NodeView>) -> nat
    decreases nodes,
{
    if nodes.len() == 0 {
        0
    } else {
        weight_all(nodes.drop_last()) + weight(nodes.last())
    }
}

/// Every folder's size fits in 64 bits.
pub open spec fn fits(n: NodeView) -> bool
    decreases n,
{
    &&& n.file is None ==> weight(n) <= u64::MAX
    &&& forall|i: int| 0 <= i < n.children.len() ==> fits(#[trigger] n.children[i])
}

/// The tree with the selection of the node and of everything below it set.
pub open spec fn with_selection(n: NodeView, selected: bool) -> NodeView
    decreases n,
{
    NodeView {
        selected,
        children: Seq::new(
            n.children.len(),
            |i: int|
                if 0 <= i < n.children.len() {
                    with_selection(n.children[i], selected)
                } else {
                    arbitrary()
                },
        ),
        ..n
    }
}

/// How many files there are in the tree.
pub open spec fn file_count(n: NodeView) -> nat
    decreases n,
{
    if n.file is Some {
        1
    } else {
        file_count_all(n.children)
    }
}

pub open spec fn file_count_all(nodes: Seq<NodeView>) -> nat
    decreases nodes,
{
    if nodes.len() == 0 {
        0
    } else {
        file_count_all(nodes.drop_last()) + file_count(nodes.last())
    }
}

/// How many of the files in the tree are selected.
pub open spec fn selected_count(n: NodeView) -> nat
    decreases n,
{
    if n.file is Some {
        if n.selected {
            1
        } else {
            0
        }
    } else {
        selected_count_all(n.children)
    }
}

pub open spec fn selected_count_all(nodes: Seq<NodeView>) -> nat
    decreases nodes,
{
    if nodes.len() == 0 {
        0
    } else {
        selected_count_all(nodes.drop_last()) + selected_count(nodes.last())
    }
}

/// The selected files, in the order in which the tree shows them.
pub open spec fn selected_files(n: NodeView) -> Seq<RepoFileView>
    decreases n,
{
    (if n.file is Some && n.selected {
        seq![n.file->0]
    } else {
        Seq::empty()
    }) + selected_files_all(n.children)
}

pub open spec fn selected_files_all(nodes: Seq<NodeView>) -> Seq<RepoFileView>
    decreases nodes,
{
    if nodes.len() == 0 {
        Seq::empty()
    } else {
        selected_files_all(nodes.drop_last()) + selected_files(nodes.last())
    }
}

/// `indices` lead from the node down to some node.
pub open spec fn has_node(n: NodeView, indices: Seq<usize>) -> bool
    decreases indices.len(),
{
    indices.len() > 0 ==> {
        &&& indices[0] < n.children.len()
        &&& has_node(n.children[indices[0] as int], indices.skip(1))
    }
}

/// The node that `indices` lead to.
pub open spec fn node_at(n: NodeView, indices: Seq<usize>) -> NodeView
    decreases indices.len(),
{
    if indices.len() == 0 {
        n
    } else {
        node_at(n.children[indices[0] as int], indices.skip(1))
    }
}

/// The tree with another node in the place that `indices` lead to.
pub open spec fn with_node(n: NodeView, indices: Seq<usize>, node: NodeView) -> NodeView
    decreases indices.len(),
{
    if indices.len() == 0 {
        node
    } else {
        let i = indices[0] as int;
        NodeView {
            children: n.children.update(i, with_node(n.children[i], indices.skip(1), node)),
            ..n
        }
    }
}

impl Clone for RepoFile {
    fn clone(&self) -> (r: Self)
        ensures
            r == *self,
    {
        RepoFile {
            path: self.path.clone(),
            size: self.size,
            sha256: match &self.sha256 {
                Some(s) => Some(s.clone()),
                None => None,
            },
        }
    }
}

impl Node {
    /// A folder without content.
    pub fn directory(name: String, path: String) -> (node: Node)
        ensures
            node@ == folder_view(name@, path@),
    {
        let node = Node {
            name,
            path,
            size: 0,
            file: None,
            selected: true,
            expanded: false,
            children: Vec::new(),
        };
        assert(node@.children =~= Seq::<NodeView>::empty());
        node
    }

    fn leaf(name: &str, path: &str, file: &RepoFile) -> (node: Node)
        ensures
            node@ == leaf_view(name@, path@, file@),
    {
        let node = Node {
            name: name.to_owned(),
            path: path.to_owned(),
            size: match file.size {
                Some(size) => size,
                None => 0,
            },
            file: Some(file.clone()),
            selected: true,
            expanded: false,
            children: Vec::new(),
        };
        assert(node@.children =~= Seq::<NodeView>::empty());
        node
    }

    fn folder_index(nodes: &Vec<Node>, name: &str) -> (at: Option<usize>)
        ensures
            match at {
                Some(i) => i < nodes.len() && folder_position(node_views(nodes@), name@) == Some(
                    i as int,
                ),
                None => folder_position(node_views(nodes@), name@) is None,
            },
    {
        let ghost views = node_views(nodes@);
        let mut i: usize = 0;
        while i < nodes.len()
            invariant
                views == node_views(nodes@),
                i <= nodes.len(),
                folder_position(views.take(i as int), name@) is None,
            decreases nodes.len() - i,
        {
            assert(views.take(i + 1).drop_last() =~= views.take(i as int));
            assert(views.take(i + 1).last() == node_view(nodes@[i as int]));
            if nodes[i].file.is_none() && text::same_text(nodes[i].name.as_str(), name) {
                proof {
                    lemma_folder_position_stays(views, name@, i + 1);
                }
                return Some(i);
            }
            i += 1;
        }
        assert(views.take(nodes.len() as int) =~= views);
        None
    }

    /// Adds a file to the tree. `parts` are the pieces of `full_path` that lead from here to the
    /// file; the last one is its name.
    pub fn insert(&mut self, parts: &[&str], full_path: &str, file: &RepoFile)
        requires
            insertable(text::strs(parts@), full_path@),
        ensures
            final(self)@ == inserted(old(self)@, text::strs(parts@), full_path@, file@),
        decreases parts.len(),
    {
        let ghost before = *old(self);
        let ghost names = text::strs(parts@);
        if parts.len() == 0 {
            return ;
        }
        proof {
            lemma_view_children(before);
        }
        if parts.len() == 1 {
            self.children.push(Node::leaf(parts[0], full_path, file));
            proof {
                lemma_view_children(*self);
                assert(self@.children =~= inserted(before@, names, full_path@, file@).children);
            }
            return ;
        }
        let rest = slice_subrange(parts, 1, parts.len());
        assert(text::strs(rest@) =~= names.skip(1));
        let index: usize = match Node::folder_index(&self.children, parts[0]) {
            Some(index) => index,
            None => {
                let tail = text::join(rest, "/");
                proof {
                    reveal_strlit("/");
                    assert("/"@ =~= seq!['/']);
                }
                let consumed: usize = full_path.as_bytes().len() - tail.as_str().as_bytes().len() - 1;
                let (current_path, _) = full_path.split_at(consumed);
                proof {
                    assert(current_path.spec_bytes() =~= encode_utf8(full_path@).take(
                        consumed as int,
                    ));
                    vstd::utf8::encode_utf8_decode_utf8(current_path@);
                }
                self.children.push(
                    Node::directory(parts[0].to_owned(), current_path.to_owned()),
                );
                self.children.len() - 1
            },
        };
        let ghost middle = *self;
        self.children[index].insert(rest, full_path, file);
        proof {
            lemma_view_children(middle);
            lemma_view_children(*self);
            assert(self@.children =~= inserted(before@, names, full_path@, file@).children);
        }
    }

    /// Puts the nodes in order. Nodes that compare equal keep their order.
    fn sort(nodes: Vec<Node>) -> (r: Vec<Node>)
        ensures
            node_views(r@) == sorted(node_views(nodes@)),
    {
        let ghost views = node_views(nodes@);
        let ghost all = nodes@;
        let mut r: Vec<Node> = Vec::new();
        let mut keys: Vec<String> = Vec::new();
        assert(node_views(r@) =~= sorted(views.take(0)));
        for node in it: nodes
            invariant
                views == node_views(all),
                it.seq() == all,
                node_views(r@) == sorted(views.take(it.index() as int)),
                keys.len() == r.len(),
                forall|k: int|
                    0 <= k < r.len() ==> #[trigger] keys@[k]@ == text::lowercase(r@[k].name@),
        {
            let key = node.name.as_str().to_lowercase();
            let ghost done = r@;
            let ghost n = node_view(node);
            assert(views.take(it.index() + 1).drop_last() =~= views.take(it.index() as int));
            assert(views.take(it.index() + 1).last() == n);
            let mut at: usize = r.len();
            assert(node_views(done).take(at as int) =~= node_views(done));
            assert(node_views(done).skip(at as int) =~= Seq::<NodeView>::empty());
            while at > 0 && Node::comes_before(&node, &key, &r[at - 1], &keys[at - 1])
                invariant
                    n == node_view(node),
                    key@ == text::lowercase(node.name@),
                    keys.len() == r.len(),
                    at <= r.len(),
                    r@ == done,
                    forall|k: int|
                        0 <= k < r.len() ==> #[trigger] keys@[k]@ == text::lowercase(r@[k].name@),
                    sorted_with(node_views(done), n) == sorted_with(
                        node_views(done).take(at as int),
                        n,
                    ) + node_views(done).skip(at as int),
                decreases at,
            {
                let ghost front = node_views(done).take(at as int);
                assert(front.last() == node_view(r@[at - 1]));
                assert(front.drop_last() =~= node_views(done).take(at - 1));
                assert(sorted_with(front, n) + node_views(done).skip(at as int) =~= sorted_with(
                    front.drop_last(),
                    n,
                ) + node_views(done).skip(at - 1));
                at -= 1;
            }
            let ghost front = node_views(done).take(at as int);
            assert(at > 0 ==> front.last() == node_view(r@[at - 1]));
            assert(sorted_with(front, n) == front.push(n));
            r.insert(at, node);
            keys.insert(at, key);
            assert(node_views(r@) =~= front.push(n) + node_views(done).skip(at as int));
        }
        assert(views.take(all.len() as int) =~= views);
        r
    }

    fn comes_before(a: &Node, a_key: &String, b: &Node, b_key: &String) -> (less: bool)
        requires
            a_key@ == text::lowercase(a.name@),
            b_key@ == text::lowercase(b.name@),
        ensures
            less == node_less(a@, b@),
    {
        if a.file.is_none() != b.file.is_none() {
            a.file.is_none()
        } else {
            text::text_less(a_key.as_str(), b_key.as_str())
        }
    }

    fn sum_sizes(nodes: &Vec<Node>) -> (sum: u64)
        requires
            size_sum(node_views(nodes@)) <= u64::MAX,
        ensures
            sum == size_sum(node_views(nodes@)),
    {
        let ghost views = node_views(nodes@);
        let mut sum: u64 = 0;
        let mut i: usize = 0;
        while i < nodes.len()
            invariant
                views == node_views(nodes@),
                size_sum(views) <= u64::MAX,
                i <= nodes.len(),
                sum == size_sum(views.take(i as int)),
            decreases nodes.len() - i,
        {
            assert(views.take(i + 1).drop_last() =~= views.take(i as int));
            assert(views.take(i + 1).last() == node_view(nodes@[i as int]));
            proof {
                lemma_size_sum_grows(views, i + 1);
            }
            sum += nodes[i].size;
            i += 1;
        }
        assert(views.take(nodes.len() as int) =~= views);
        sum
    }

    /// Sorts every folder, gives every folder the sum of the sizes below it, and returns the size
    /// of this node.
    pub fn finish(&mut self) -> (size: u64)
        requires
            fits(old(self)@),
        ensures
            final(self)@ == finished(old(self)@),
            size == final(self)@.size,
            fits(final(self)@),
        decreases *old(self),
    {
        let ghost before = *old(self);
        proof {
            tree_laws::law_finished_tree_fits(before@);
        }
        let mut i: usize = 0;
        while i < self.children.len()
            invariant
                before == *old(self),
                fits(before@),
                i <= self.children.len() == before.children.len(),
                self.name == before.name,
                self.path == before.path,
                self.size == before.size,
                self.file == before.file,
                self.selected == before.selected,
                self.expanded == before.expanded,
                forall|k: int|
                    0 <= k < i ==> node_view(#[trigger] self.children@[k]) == finished(
                        node_view(before.children@[k]),
                    ),
                forall|k: int|
                    i <= k < self.children.len() ==> #[trigger] self.children@[k]
                        == before.children@[k],
            decreases self.children.len() - i,
        {
            assert(decreases_to!(before => before.children@[i as int]));
            assert(fits(before@.children[i as int]));
            self.children[i].finish();
            i += 1;
        }
        proof {
            lemma_view_children(before);
            lemma_view_children(*self);
            assert(self@.children =~= finished_all(before@.children));
        }
        let mut children: Vec<Node> = Vec::new();
        std::mem::swap(&mut children, &mut self.children);
        self.children = Node::sort(children);
        proof {
            lemma_view_children(*self);
            lemma_finished_children(before@);
            assert(self@.children == finished(before@).children);
        }
        if self.file.is_none() {
            proof {
                lemma_finished_weight(before@);
            }
            self.size = Node::sum_sizes(&self.children);
        }
        self.size
    }

    /// Selects or deselects the node and everything below it.
    pub fn set_selected(&mut self, selected: bool)
        ensures
            final(self)@ == with_selection(old(self)@, selected),
        decreases *old(self),
    {
        let ghost before = *old(self);
        self.selected = selected;
        let mut i: usize = 0;
        while i < self.children.len()
            invariant
                before == *old(self),
                i <= self.children.len() == before.children.len(),
                self.name == before.name,
                self.path == before.path,
                self.size == before.size,
                self.file == before.file,
                self.selected == selected,
                self.expanded == before.expanded,
                forall|k: int|
                    0 <= k < i ==> node_view(#[trigger] self.children@[k]) == with_selection(
                        node_view(before.children@[k]),
                        selected,
                    ),
                forall|k: int|
                    i <= k < self.children.len() ==> #[trigger] self.children@[k]
                        == before.children@[k],
            decreases self.children.len() - i,
        {
            assert(decreases_to!(before => before.children@[i as int]));
            self.children[i].set_selected(selected);
            i += 1;
        }
        assert(self@.children =~= with_selection(before@, selected).children);
    }

    /// How many files are selected, and how many there are.
    pub fn selection(&self) -> (r: (usize, usize))
        requires
            file_count(self@) <= usize::MAX,
        ensures
            r.0 == selected_count(self@),
            r.1 == file_count(self@),
        decreases *self,
    {
        if self.file.is_some() {
            return (if self.selected { 1 } else { 0 }, 1);
        }
        proof {
            lemma_view_children(*self);
        }
        let ghost views = self@.children;
        let mut selected: usize = 0;
        let mut total: usize = 0;
        let mut i: usize = 0;
        while i < self.children.len()
            invariant
                views == node_views(self.children@),
                file_count_all(views) <= usize::MAX,
                i <= self.children.len(),
                selected == selected_count_all(views.take(i as int)),
                total == file_count_all(views.take(i as int)),
                selected <= total,
            decreases self.children.len() - i,
        {
            assert(views.take(i + 1).drop_last() =~= views.take(i as int));
            assert(views.take(i + 1).last() == node_view(self.children@[i as int]));
            proof {
                lemma_file_count_grows(views, i + 1);
                lemma_selected_at_most_all(views[i as int]);
            }
            assert(decreases_to!(*self => self.children@[i as int]));
            let (s, t) = self.children[i].selection();
            selected += s;
            total += t;
            i += 1;
        }
        assert(views.take(self.children.len() as int) =~= views);
        (selected, total)
    }

    /// Appends the selected files.
    pub fn collect(&self, output: &mut Vec<RepoFile>)
        ensures
            file_views(final(output)@) == file_views(old(output)@) + selected_files(self@),
        decreases *self,
    {
        let ghost before = output@;
        match &self.file {
            Some(file) => {
                if self.selected {
                    output.push(file.clone());
                }
            },
            None => {},
        }
        proof {
            lemma_view_children(*self);
        }
        let ghost views = self@.children;
        let ghost own = if self.file is Some && self.selected {
            seq![self@.file->0]
        } else {
            Seq::empty()
        };
        assert(file_views(output@) =~= file_views(before) + own);
        assert(own + selected_files_all(views.take(0)) =~= own);
        let mut i: usize = 0;
        while i < self.children.len()
            invariant
                views == node_views(self.children@),
                i <= self.children.len(),
                file_views(output@) == file_views(before) + (own + selected_files_all(
                    views.take(i as int),
                )),
            decreases self.children.len() - i,
        {
            assert(views.take(i + 1).drop_last() =~= views.take(i as int));
            assert(views.take(i + 1).last() == node_view(self.children@[i as int]));
            assert(decreases_to!(*self => self.children@[i as int]));
            self.children[i].collect(output);
            assert(file_views(output@) =~= file_views(before) + (own + selected_files_all(
                views.take(i + 1),
            )));
            i += 1;
        }
        assert(views.take(self.children.len() as int) =~= views);
    }
}

/// The views of a row of files.
pub open spec fn file_views(files: Seq<RepoFile>) -> Seq<RepoFileView> {
    files.map_values(|f: RepoFile| f@)
}

/// The node that `indices` lead to, for changing it in place.
pub fn node_mut<'a>(node: &'a mut Node, indices: &[usize]) -> (r: &'a mut Node)
    requires
        has_node(old(node)@, indices@),
    ensures
        (*r)@ == node_at(old(node)@, indices@),
        final(node)@ == with_node(old(node)@, indices@, (*final(r))@),
    decreases indices.len(),
{
    if indices.len() == 0 {
        return node;
    }
    proof {
        lemma_view_children(*node);
    }
    let index = indices[0];
    let rest = slice_subrange(indices, 1, indices.len());
    assert(rest@ =~= indices@.skip(1));
    let ghost before = *node;
    let ghost after = *final(node);
    let r = node_mut(&mut node.children[index], rest);
    proof {
        lemma_view_children(after);
        assert(after@.children =~= with_node(before@, indices@, (*final(r))@).children);
    }
    r
}

/// `indices` lead to a node of the tree.
pub fn contains_node(node: &Node, indices: &[usize]) -> (b: bool)
    ensures
        b == has_node(node@, indices@),
    decreases indices.len(),
{
    if indices.len() == 0 {
        return true;
    }
    proof {
        lemma_view_children(*node);
    }
    if indices[0] >= node.children.len() {
        return false;
    }
    let rest = slice_subrange(indices, 1, indices.len());
    assert(rest@ =~= indices@.skip(1));
    contains_node(&node.children[indices[0]], rest)
}

pub proof fn lemma_finished_children(n: NodeView)
    ensures
        finished_children(n) == finished_all(n.children),
{
    assert(finished_children(n) =~= finished_all(n.children));
}

proof fn lemma_size_sum_grows(nodes: Seq<NodeView>, n: int)
    requires
        0 <= n <= nodes.len(),
    ensures
        size_sum(nodes.take(n)) <= size_sum(nodes),
    decreases nodes.len() - n,
{
    if n < nodes.len() {
        lemma_size_sum_grows(nodes, n + 1);
        assert(nodes.take(n + 1).drop_last() =~= nodes.take(n));
    } else {
        assert(nodes.take(n) =~= nodes);
    }
}

proof fn lemma_file_count_grows(nodes: Seq<NodeView>, n: int)
    requires
        0 <= n <= nodes.len(),
    ensures
        file_count_all(nodes.take(n)) <= file_count_all(nodes),
    decreases nodes.len() - n,
{
    if n < nodes.len() {
        lemma_file_count_grows(nodes, n + 1);
        assert(nodes.take(n + 1).drop_last() =~= nodes.take(n));
    } else {
        assert(nodes.take(n) =~= nodes);
    }
}

/// No more files are selected than there are.
pub proof fn lemma_selected_at_most_all(n: NodeView)
    ensures
        selected_count(n) <= file_count(n),
    decreases n,
{
    if n.file is None {
        lemma_selected_at_most_all_of(n.children);
    }
}

proof fn lemma_selected_at_most_all_of(nodes: Seq<NodeView>)
    ensures
        selected_count_all(nodes) <= file_count_all(nodes),
    decreases nodes,
{
    if nodes.len() > 0 {
        lemma_selected_at_most_all_of(nodes.drop_last());
        lemma_selected_at_most_all(nodes.last());
    }
}

proof fn lemma_sorted_with_size(nodes: Seq<NodeView>, n: NodeView)
    ensures
        size_sum(sorted_with(nodes, n)) == size_sum(nodes) + n.size,
    decreases nodes.len(),
{
    if nodes.len() == 0 || !node_less(n, nodes.last()) {
        assert(nodes.push(n).drop_last() =~= nodes);
    } else {
        let front = sorted_with(nodes.drop_last(), n);
        lemma_sorted_with_size(nodes.drop_last(), n);
        assert(front.push(nodes.last()).drop_last() =~= front);
    }
}

proof fn lemma_sorted_size(nodes: Seq<NodeView>)
    ensures
        size_sum(sorted(nodes)) == size_sum(nodes),
    decreases nodes.len(),
{
    if nodes.len() > 0 {
        lemma_sorted_size(nodes.drop_last());
        lemma_sorted_with_size(sorted(nodes.drop_last()), nodes.last());
    }
}

/// The size of a finished node is the sum of the file sizes below it.
pub proof fn lemma_finished_weight(n: NodeView)
    requires
        fits(n),
    ensures
        finished(n).size == weight(n),
        n.file is None ==> size_sum(finished(n).children) == weight(n),
    decreases n,
{
    if n.file is None {
        assert forall|i: int| 0 <= i < n.children.len() implies fits(#[trigger] n.children[i]) by {}
        lemma_finished_weights(n.children);
        lemma_finished_children(n);
        lemma_sorted_size(finished_all(n.children));
    }
}

proof fn lemma_finished_weights(nodes: Seq<NodeView>)
    requires
        forall|i: int| 0 <= i < nodes.len() ==> fits(#[trigger] nodes[i]),
    ensures
        size_sum(finished_all(nodes)) == weight_all(nodes),
    decreases nodes,
{
    if nodes.len() > 0 {
        lemma_finished_weights(nodes.drop_last());
        lemma_finished_weight(nodes.last());
        assert(finished_all(nodes).drop_last() =~= finished_all(nodes.drop_last()));
    }
}

proof fn lemma_folder_position_stays(nodes: Seq<NodeView>, name: Seq<char>, n: int)
    requires
        0 <= n <= nodes.len(),
        folder_position(nodes.take(n), name) is Some,
    ensures
        folder_position(nodes, name) == folder_position(nodes.take(n), name),
    decreases nodes.len() - n,
{
    if n < nodes.len() {
        assert(nodes.take(n + 1).drop_last() =~= nodes.take(n));
        lemma_folder_position_stays(nodes, name, n + 1);
    } else {
        assert(nodes.take(n) =~= nodes);
    }
}

/// A node for a file has nothing below it, here and everywhere below.
pub open spec fn well_formed(n: NodeView) -> bool
    decreases n,
{
    &&& n.file is Some ==> n.children.len() == 0
    &&& forall|i: int| 0 <= i < n.children.len() ==> well_formed(#[trigger] n.children[i])
}

/// The last pieces of a path between slashes can be inserted under that path, and the folders on
/// the way get the pieces in front of them as their paths.
pub proof fn lemma_pieces_insertable(full: Seq<char>, k: int)
    requires
        0 <= k <= text::pieces(full, '/').len(),
    ensures
        insertable(text::pieces(full, '/').skip(k), full),
    decreases text::pieces(full, '/').len() - k,
{
    let parts = text::pieces(full, '/');
    if k + 1 < parts.len() {
        lemma_pieces_insertable(full, k + 1);
        lemma_folder_path(full, k + 1);
        assert(parts.skip(k).skip(1) =~= parts.skip(k + 1));
    }
}

/// The path of the folder in front of the pieces from `k` on.
#[verifier::rlimit(60)]
pub proof fn lemma_folder_path(full: Seq<char>, k: int)
    requires
        0 < k < text::pieces(full, '/').len(),
    ensures
        folder_bytes(full, text::pieces(full, '/').skip(k)) >= 0,
        is_char_boundary(
            encode_utf8(full),
            folder_bytes(full, text::pieces(full, '/').skip(k)),
        ),
        folder_path(full, text::pieces(full, '/').skip(k)) == text::joined(
            text::pieces(full, '/').take(k),
            seq!['/'],
        ),
{
    let parts = text::pieces(full, '/');
    let slash = seq!['/'];
    let front = text::joined(parts.take(k), slash);
    let back = text::joined(parts.skip(k), slash);
    text::law_join_of_pieces(full, '/');
    text::lemma_joined_split(parts, slash, k);
    assert(front + slash + back =~= front + (slash + back));
    text::lemma_encode_concat(front, slash + back);
    text::lemma_encode_concat(slash, back);
    assert(encode_utf8(slash).len() == 1) by {
        is_ascii_chars_encode_utf8(slash);
    }
    text::lemma_boundary_between(front, slash + back);
    assert(encode_utf8(full).take(encode_utf8(front).len() as int) =~= encode_utf8(front));
    encode_utf8_decode_utf8(front);
}

/// The tree that listing the files one after the other gives.
pub open spec fn listed(root: NodeView, files: Seq<RepoFileView>) -> NodeView
    decreases files.len(),
{
    if files.len() == 0 {
        root
    } else {
        inserted(
            listed(root, files.drop_last()),
            text::pieces(files.last().path, '/'),
            files.last().path,
            files.last(),
        )
    }
}

/// The size of a file, where a size that is not known counts as zero.
pub open spec fn known_size(file: RepoFileView) -> nat {
    match file.size {
        Some(size) => size as nat,
        None => 0,
    }
}

pub open spec fn known_sizes(files: Seq<RepoFileView>) -> nat
    decreases files.len(),
{
    if files.len() == 0 {
        0
    } else {
        known_sizes(files.drop_last()) + known_size(files.last())
    }
}

/// The root of the tree of a repository before any file is in it.
pub open spec fn empty_root(id: Seq<char>) -> NodeView {
    NodeView { expanded: true, ..folder_view(id, Seq::empty()) }
}

/// The finished tree of a repository with the given files.
pub open spec fn repository_tree(id: Seq<char>, files: Seq<RepoFileView>) -> NodeView {
    finished(listed(empty_root(id), files))
}

pub proof fn lemma_folder_position_is_folder(nodes: Seq<NodeView>, name: Seq<char>)
    ensures
        folder_position(nodes, name) matches Some(i) ==> 0 <= i < nodes.len()
            && nodes[i].file is None && nodes[i].name == name,
    decreases nodes.len(),
{
    if nodes.len() > 0 {
        lemma_folder_position_is_folder(nodes.drop_last(), name);
    }
}

proof fn lemma_weight_all_push(nodes: Seq<NodeView>, n: NodeView)
    ensures
        weight_all(nodes.push(n)) == weight_all(nodes) + weight(n),
{
    assert(nodes.push(n).drop_last() =~= nodes);
}

proof fn lemma_weight_all_update(nodes: Seq<NodeView>, i: int, n: NodeView)
    requires
        0 <= i < nodes.len(),
    ensures
        weight_all(nodes.update(i, n)) + weight(nodes[i]) == weight_all(nodes) + weight(n),
    decreases nodes.len(),
{
    if i == nodes.len() - 1 {
        assert(nodes.update(i, n).drop_last() =~= nodes.drop_last());
    } else {
        assert(nodes.update(i, n).drop_last() =~= nodes.drop_last().update(i, n));
        lemma_weight_all_update(nodes.drop_last(), i, n);
    }
}

/// Inserting a file adds its size to the tree and keeps the tree well formed.
pub proof fn law_insert_adds_size(
    n: NodeView,
    parts: Seq<Seq<char>>,
    full: Seq<char>,
    file: RepoFileView,
)
    requires
        n.file is None,
        parts.len() > 0,
        well_formed(n),
    ensures
        weight(inserted(n, parts, full, file)) == weight(n) + known_size(file),
        inserted(n, parts, full, file).file is None,
        well_formed(inserted(n, parts, full, file)),
    decreases parts.len(),
{
    let after = inserted(n, parts, full, file);
    if parts.len() == 1 {
        lemma_weight_all_push(n.children, leaf_view(parts[0], full, file));
        assert forall|i: int| 0 <= i < after.children.len() implies well_formed(
            #[trigger] after.children[i],
        ) by {
            if i < n.children.len() {
                assert(well_formed(n.children[i]));
            }
        }
    } else {
        lemma_folder_position_is_folder(n.children, parts[0]);
        match folder_position(n.children, parts[0]) {
            Some(i) => {
                assert(well_formed(n.children[i]));
                law_insert_adds_size(n.children[i], parts.skip(1), full, file);
                lemma_weight_all_update(
                    n.children,
                    i,
                    inserted(n.children[i], parts.skip(1), full, file),
                );
                assert forall|k: int| 0 <= k < after.children.len() implies well_formed(
                    #[trigger] after.children[k],
                ) by {
                    if k != i {
                        assert(well_formed(n.children[k]));
                    }
                }
            },
            None => {
                let folder = folder_view(parts[0], folder_path(full, parts.skip(1)));
                law_insert_adds_size(folder, parts.skip(1), full, file);
                lemma_weight_all_push(n.children, inserted(folder, parts.skip(1), full, file));
                assert forall|k: int| 0 <= k < after.children.len() implies well_formed(
                    #[trigger] after.children[k],
                ) by {
                    if k < n.children.len() {
                        assert(well_formed(n.children[k]));
                    }
                }
            },
        }
    }
}

/// A listed tree is well formed and weighs what its files weigh.
pub proof fn law_listed_weight(id: Seq<char>, files: Seq<RepoFileView>)
    ensures
        well_formed(listed(empty_root(id), files)),
        listed(empty_root(id), files).file is None,
        weight(listed(empty_root(id), files)) == known_sizes(files),
    decreases files.len(),
{
    if files.len() > 0 {
        law_listed_weight(id, files.drop_last());
        text::law_join_of_pieces(files.last().path, '/');
        law_insert_adds_size(
            listed(empty_root(id), files.drop_last()),
            text::pieces(files.last().path, '/'),
            files.last().path,
            files.last(),
        );
    }
}

/// In a well-formed tree no folder weighs more than the tree, so all sizes fit where that of the
/// whole tree does.
pub proof fn lemma_weight_fits(n: NodeView)
    requires
        well_formed(n),
        weight(n) <= u64::MAX,
    ensures
        fits(n),
    decreases n,
{
    if n.file is None {
        assert forall|i: int| 0 <= i < n.children.len() implies fits(#[trigger] n.children[i]) by {
            lemma_weight_at_most(n.children, i);
            assert(well_formed(n.children[i]));
            lemma_weight_fits(n.children[i]);
        }
    }
}

proof fn lemma_weight_at_most(nodes: Seq<NodeView>, i: int)
    requires
        0 <= i < nodes.len(),
    ensures
        weight(nodes[i]) <= weight_all(nodes),
    decreases nodes.len(),
{
    if i < nodes.len() - 1 {
        lemma_weight_at_most(nodes.drop_last(), i);
    }
}

/// The sizes of the files summed up, where the sum fits in 64 bits.
pub fn total_size(files: &Vec<RepoFile>) -> (total: Option<u64>)
    ensures
        match total {
            Some(sum) => sum == known_sizes(file_views(files@)),
            None => known_sizes(file_views(files@)) > u64::MAX,
        },
{
    let ghost views = file_views(files@);
    let mut sum: u64 = 0;
    let mut i: usize = 0;
    while i < files.len()
        invariant
            views == file_views(files@),
            i <= files.len(),
            sum == known_sizes(views.take(i as int)),
        decreases files.len() - i,
    {
        assert(views.take(i + 1).drop_last() =~= views.take(i as int));
        assert(views.take(i + 1).last() == files@[i as int]@);
        let size: u64 = match files[i].size {
            Some(size) => size,
            None => 0,
        };
        if sum > u64::MAX - size {
            proof {
                lemma_known_sizes_grow(views, i + 1);
            }
            return None;
        }
        sum += size;
        i += 1;
    }
    assert(views.take(files.len() as int) =~= views);
    Some(sum)
}

proof fn lemma_known_sizes_grow(files: Seq<RepoFileView>, n: int)
    requires
        0 <= n <= files.len(),
    ensures
        known_sizes(files.take(n)) <= known_sizes(files),
    decreases files.len() - n,
{
    if n < files.len() {
        lemma_known_sizes_grow(files, n + 1);
        assert(files.take(n + 1).drop_last() =~= files.take(n));
    } else {
        assert(files.take(n) =~= files);
    }
}

/// Builds the tree of a repository: every file is inserted under its path, and the tree is
/// finished. The root is open from the start.
pub fn build_tree(id: &str, files: &Vec<RepoFile>) -> (root: Node)
    requires
        known_sizes(file_views(files@)) <= u64::MAX,
    ensures
        root@ == repository_tree(id@, file_views(files@)),
{
    let ghost views = file_views(files@);
    let mut root = Node::directory(id.to_owned(), String::new());
    let ghost folder = root;
    root.expanded = true;
    proof {
        lemma_view_children(folder);
        lemma_view_children(root);
        assert(root@ =~= empty_root(id@));
        assert(listed(root@, views.take(0)) == root@);
    }
    let mut i: usize = 0;
    while i < files.len()
        invariant
            views == file_views(files@),
            i <= files.len(),
            root@ == listed(empty_root(id@), views.take(i as int)),
        decreases files.len() - i,
    {
        assert(views.take(i + 1).drop_last() =~= views.take(i as int));
        assert(views.take(i + 1).last() == files@[i as int]@);
        let file = &files[i];
        let pieces = text::split(file.path.as_str(), '/');
        let parts = text::borrowed(&pieces);
        proof {
            lemma_pieces_insertable(file.path@, 0);
            assert(text::strs(parts@).skip(0) =~= text::strs(parts@));
        }
        root.insert(parts.as_slice(), file.path.as_str(), file);
        i += 1;
    }
    assert(views.take(files.len() as int) =~= views);
    proof {
        law_listed_weight(id@, views);
        lemma_weight_fits(root@);
    }
    root.finish();
    root
}

} // verus!
