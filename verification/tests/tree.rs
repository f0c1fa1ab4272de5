use simplehf::rows::{can_download, check_mark, rows, selection_label};
use simplehf::tree::{build_tree, contains_node, node_mut, total_size, Node, RepoFile};

fn file(path: &str, size: u64) -> RepoFile {
    RepoFile {
        path: path.into(),
        size: Some(size),
        sha256: None,
    }
}

fn collected(root: &Node) -> Vec<String> {
    let mut selected = Vec::new();
    root.collect(&mut selected);
    selected.into_iter().map(|f| f.path).collect()
}

#[test]
fn repository_tree_preserves_nested_paths_and_sizes() {
    let mut root = Node::directory("root".into(), String::new());
    for item in [
        file("config.json", 10),
        file("weights/a/model.safetensors", 90),
    ] {
        let parts: Vec<_> = item.path.split('/').collect();
        root.insert(&parts, &item.path, &item);
    }
    assert_eq!(root.finish(), 100);
    assert_eq!(root.children[0].name, "weights");
    assert_eq!(root.children[0].children[0].path, "weights/a");
    let mut selected = Vec::new();
    root.collect(&mut selected);
    assert_eq!(
        selected.iter().map(|f| f.path.as_str()).collect::<Vec<_>>(),
        ["weights/a/model.safetensors", "config.json"]
    );
}

#[test]
fn selecting_a_folder_controls_only_its_descendants() {
    let mut root = Node::directory("root".into(), String::new());
    for item in [file("one/a.bin", 1), file("two/b.bin", 1)] {
        let parts: Vec<_> = item.path.split('/').collect();
        root.insert(&parts, &item.path, &item);
    }
    root.finish();
    root.children[0].set_selected(false);
    assert_eq!(root.selection(), (1, 2));
    let mut selected = Vec::new();
    root.collect(&mut selected);
    assert_eq!(selected[0].path, "two/b.bin");
}

#[test]
fn folders_come_first_and_names_sort_without_case() {
    let files = vec![
        file("b.txt", 1),
        file("A.txt", 1),
        file("a.txt", 1),
        file("Zoo/x", 1),
        file("apple/y", 1),
        file("\u{c9}/z", 1),
    ];
    let root = build_tree("org/model", &files);
    let names: Vec<_> = root.children.iter().map(|c| c.name.as_str()).collect();
    assert_eq!(names, ["apple", "Zoo", "\u{c9}", "A.txt", "a.txt", "b.txt"]);
    assert_eq!(root.name, "org/model");
    assert_eq!(root.path, "");
    assert!(root.expanded);
    assert!(!root.children[0].expanded);
    assert_eq!(root.size, 6);
}

#[test]
fn lowercase_names_decide_also_where_lowercase_changes_the_length() {
    // The capital dotted I becomes two characters.
    let files = vec![file("\u{130}", 1), file("i\u{307}", 1), file("ij", 1)];
    let root = build_tree("org/model", &files);
    let names: Vec<_> = root.children.iter().map(|c| c.name.as_str()).collect();
    assert_eq!(names, ["ij", "\u{130}", "i\u{307}"]);
}

#[test]
fn files_of_a_folder_share_it() {
    let files = vec![file("w/a", 1), file("x", 2), file("w/b", 4), file("w/c/d", 8)];
    let root = build_tree("org/model", &files);
    assert_eq!(root.children.len(), 2);
    assert_eq!(root.children[0].size, 13);
    assert_eq!(root.children[0].children[0].path, "w/c");
    assert_eq!(root.children[0].children[0].children[0].path, "w/c/d");
    assert_eq!(collected(&root), ["w/c/d", "w/a", "w/b", "x"]);
    assert_eq!(root.selection(), (4, 4));
}

#[test]
fn folder_paths_are_cut_at_characters() {
    let files = vec![file("\u{4e2d}\u{6587}/\u{e9}/x", 1)];
    let root = build_tree("org/model", &files);
    assert_eq!(root.children[0].path, "\u{4e2d}\u{6587}");
    assert_eq!(root.children[0].children[0].path, "\u{4e2d}\u{6587}/\u{e9}");
}

#[test]
fn a_file_without_size_counts_as_empty() {
    let mut unknown = file("a", 0);
    unknown.size = None;
    unknown.sha256 = Some("abc".to_string());
    let files = vec![unknown, file("b", 3)];
    assert_eq!(total_size(&files), Some(3));
    let root = build_tree("org/model", &files);
    assert_eq!(root.size, 3);
    let mut all = Vec::new();
    root.collect(&mut all);
    assert_eq!(all[0].size, None);
    assert_eq!(all[0].sha256.as_deref(), Some("abc"));
}

#[test]
fn sizes_that_do_not_fit_are_noticed() {
    assert_eq!(total_size(&vec![file("a", u64::MAX), file("b", 0)]), Some(u64::MAX));
    assert_eq!(total_size(&vec![file("a", u64::MAX), file("b", 1)]), None);
}

#[test]
fn inserting_no_parts_changes_nothing() {
    let mut root = Node::directory("root".into(), String::new());
    root.insert(&[], "x", &file("x", 1));
    assert!(root.children.is_empty());
}

#[test]
fn everything_can_be_selected_and_deselected() {
    let files = vec![file("w/a", 1), file("w/b", 1), file("c", 1)];
    let mut root = build_tree("org/model", &files);
    root.set_selected(false);
    assert_eq!(root.selection(), (0, 3));
    assert!(collected(&root).is_empty());
    root.set_selected(true);
    assert_eq!(root.selection(), (3, 3));
    assert_eq!(collected(&root), ["w/a", "w/b", "c"]);
}

#[test]
fn a_node_is_changed_in_its_place() {
    let files = vec![file("w/a", 1), file("w/b", 1), file("c", 1)];
    let mut root = build_tree("org/model", &files);
    assert!(contains_node(&root, &[0, 1]));
    assert!(contains_node(&root, &[]));
    assert!(!contains_node(&root, &[2]));
    assert!(!contains_node(&root, &[0, 1, 0]));
    node_mut(&mut root, &[0, 1]).set_selected(false);
    assert_eq!(collected(&root), ["w/a", "c"]);
    assert_eq!(root.children[0].selection(), (1, 2));
    node_mut(&mut root, &[0]).expanded = true;
    assert!(root.children[0].expanded);
}

#[test]
fn open_folders_show_their_rows() {
    let files = vec![
        file("w/p/x", 1),
        file("w/q", 2),
        file("c", 4),
    ];
    let mut root = build_tree("org/model", &files);
    let closed = rows(&root);
    assert_eq!(closed.len(), 2);
    assert_eq!(closed[0].name, "w");
    assert_eq!(closed[0].guide, None);
    assert!(closed[0].folder);
    assert!(!closed[0].expanded);
    assert_eq!(closed[0].size, 3);
    assert_eq!(closed[1].indices, vec![1]);
    assert!(!closed[1].folder);

    node_mut(&mut root, &[0]).expanded = true;
    node_mut(&mut root, &[0, 0]).expanded = true;
    node_mut(&mut root, &[0, 1]).set_selected(false);
    let open = rows(&root);
    let shown: Vec<(Vec<usize>, Option<&str>, &str, usize, usize)> = open
        .iter()
        .map(|row| {
            (
                row.indices.clone(),
                row.guide.as_deref(),
                row.path.as_str(),
                row.selected,
                row.total,
            )
        })
        .collect();
    assert_eq!(
        shown,
        vec![
            (vec![0], None, "w", 1, 2),
            (vec![0, 0], Some("\u{251c}\u{2500}"), "w/p", 1, 1),
            (vec![0, 0, 0], Some("\u{2502}   \u{2514}\u{2500}"), "w/p/x", 1, 1),
            (vec![0, 1], Some("\u{2514}\u{2500}"), "w/q", 0, 1),
            (vec![1], None, "c", 1, 1),
        ]
    );
}

#[test]
fn a_last_folder_leaves_no_line_below_it() {
    let files = vec![file("w/p/x", 1)];
    let mut root = build_tree("org/model", &files);
    node_mut(&mut root, &[0]).expanded = true;
    node_mut(&mut root, &[0, 0]).expanded = true;
    let open = rows(&root);
    assert_eq!(open[2].guide.as_deref(), Some("    \u{2514}\u{2500}"));
}

#[test]
fn the_selection_is_summed_up() {
    assert_eq!(selection_label(1, 12), "1 of 12 files selected");
    assert_eq!(check_mark(0, 2), (false, false));
    assert_eq!(check_mark(1, 2), (false, true));
    assert_eq!(check_mark(2, 2), (true, false));
    assert_eq!(check_mark(0, 0), (true, false));
    assert!(!can_download(0));
    assert!(can_download(1));
}

#[test]
fn a_node_is_shown_when_all_folders_above_it_are_open() {
    let files = vec![file("a/b/c", 1), file("a/d", 1), file("e", 1)];
    let mut root = build_tree("org/model", &files);
    node_mut(&mut root, &[0, 0]).expanded = true;
    // The inner folder is open, but the outer one is not.
    let ways: Vec<Vec<usize>> = rows(&root).into_iter().map(|row| row.indices).collect();
    assert_eq!(ways, vec![vec![0], vec![1]]);
    node_mut(&mut root, &[0]).expanded = true;
    let ways: Vec<Vec<usize>> = rows(&root).into_iter().map(|row| row.indices).collect();
    assert_eq!(
        ways,
        vec![vec![0], vec![0, 0], vec![0, 0, 0], vec![0, 1], vec![1]]
    );
    let mut sorted = ways.clone();
    sorted.sort();
    assert_eq!(ways, sorted);
}

fn assert_grown(node: &Node, at: &str) {
    for (i, child) in node.children.iter().enumerate() {
        let way = if at.is_empty() {
            child.name.clone()
        } else {
            format!("{at}/{}", child.name)
        };
        assert_eq!(child.path, way);
        match &child.file {
            Some(file) => assert_eq!(file.path, way),
            None => {
                assert!(child.selection().1 > 0);
                assert!(node.children[..i]
                    .iter()
                    .all(|other| other.file.is_some() || other.name != child.name));
                assert_grown(child, &way);
            }
        }
    }
}

#[test]
fn the_tree_is_sound_after_every_insertion() {
    let mut root = Node::directory("root".into(), String::new());
    for path in ["w/a", "w/b/c", "w", "x/y/z", "w/b/d", "x/q"] {
        let item = file(path, 1);
        let parts: Vec<_> = item.path.split('/').collect();
        root.insert(&parts, &item.path, &item);
        assert_grown(&root, "");
    }
    root.finish();
    assert_grown(&root, "");
}

#[test]
fn a_finished_tree_can_be_finished_again() {
    let files = vec![file("w/a", u64::MAX - 1), file("c", 1)];
    let mut root = build_tree("org/model", &files);
    let before = format!("{root:?}");
    assert_eq!(root.finish(), u64::MAX);
    assert_eq!(format!("{root:?}"), before);
}

#[test]
fn a_tree_in_use_collects_what_it_counts() {
    let files = vec![file("w/a", 1), file("w/b/c", 1), file("w/b/d", 1), file("e", 1)];
    let mut root = build_tree("org/model", &files);
    let changes: [(&[usize], bool); 5] =
        [(&[0], false), (&[0, 0], true), (&[1], false), (&[], true), (&[0, 0, 1], false)];
    for (indices, selected) in changes {
        assert!(contains_node(&root, indices));
        node_mut(&mut root, indices).set_selected(selected);
        node_mut(&mut root, indices).expanded = selected;
        let (counted, total) = root.selection();
        assert_eq!(collected(&root).len(), counted);
        assert_eq!(total, 4);
    }
    assert_eq!(collected(&root), ["w/b/c", "w/a", "e"]);
}
