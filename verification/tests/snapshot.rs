use tree_snapshot::entry::DirEntry;
use tree_snapshot::listing::Listing;
use tree_snapshot::node::TreeNode;
use tree_snapshot::snapshot::build_children;
use tree_snapshot::snapshot::build_tree;
use tree_snapshot::snapshot::Snapshot;

fn entry(relative: &str, is_dir: bool) -> DirEntry {
    let name = relative.rsplit('/').next().unwrap();
    DirEntry {
        path: format!("/r/{}", relative),
        relative_path: relative.to_string(),
        name: Some(name.to_string()),
        is_dir,
    }
}

fn root(contents: Option<Vec<Listing>>) -> Listing {
    let entry = DirEntry {
        path: "/r".to_string(),
        relative_path: String::new(),
        name: Some("r".to_string()),
        is_dir: true,
    };
    Listing::directory(entry, false, contents)
}

fn file(relative: &str) -> Listing {
    Listing::file(entry(relative, false), false)
}

fn dir(relative: &str, contents: Vec<Listing>) -> Listing {
    Listing::directory(entry(relative, true), false, Some(contents))
}

fn file_node(path: &str, label: &str) -> TreeNode {
    TreeNode::file(path.to_string(), label.to_string())
}

fn dir_node(path: &str, label: &str, children: Vec<TreeNode>) -> TreeNode {
    TreeNode::directory(path.to_string(), label.to_string(), children)
}

fn layout(b_ignored: bool) -> Listing {
    let mut b = dir("b", vec![file("b/x.txt")]);
    b.ignored = b_ignored;
    root(Some(vec![b, dir("a", Vec::new()), file("z.txt")]))
}

#[test]
fn a_tree_with_nothing_ignored() {
    let tree = build_tree(&layout(false));
    let expected = dir_node(
        "/r",
        "r",
        vec![
            dir_node("/r/a", "a", Vec::new()),
            dir_node("/r/b", "b", vec![file_node("/r/b/x.txt", "x.txt")]),
            file_node("/r/z.txt", "z.txt"),
        ],
    );
    assert_eq!(tree, expected);
}

#[test]
fn an_ignored_directory_is_absent_with_all_below_it() {
    let tree = build_tree(&layout(true));
    let expected = dir_node(
        "/r",
        "r",
        vec![dir_node("/r/a", "a", Vec::new()), file_node("/r/z.txt", "z.txt")],
    );
    assert_eq!(tree, expected);
}

#[test]
fn an_ignored_file_is_absent() {
    let mut z = file("z.txt");
    z.ignored = true;
    let tree = build_tree(&root(Some(vec![z, file("y.txt")])));
    assert_eq!(tree.children, vec![file_node("/r/y.txt", "y.txt")]);
}

#[test]
fn version_control_data_is_absent_whatever_the_filter_says() {
    let git = dir(".git", vec![file(".git/config"), dir(".git/objects", Vec::new())]);
    assert!(!git.ignored);
    let nested = dir("sub", vec![dir("sub/.git", vec![file("sub/.git/HEAD")]), file("sub/a")]);
    let tree = build_tree(&root(Some(vec![git, nested, file(".gitignore")])));
    let expected = dir_node(
        "/r",
        "r",
        vec![
            dir_node("/r/sub", "sub", vec![file_node("/r/sub/a", "a")]),
            file_node("/r/.gitignore", ".gitignore"),
        ],
    );
    assert_eq!(tree, expected);
}

#[test]
fn a_file_named_git_is_a_file_like_any_other() {
    let tree = build_tree(&root(Some(vec![file(".git"), file("a")])));
    assert_eq!(tree.children, vec![file_node("/r/.git", ".git"), file_node("/r/a", "a")]);
}

#[test]
fn a_file_named_git_alone_is_the_one_child() {
    let tree = build_tree(&root(Some(vec![file(".git")])));
    assert_eq!(tree, dir_node("/r", "r", vec![file_node("/r/.git", ".git")]));
}

#[test]
fn an_ignored_file_named_git_is_absent() {
    let mut git = file(".git");
    git.ignored = true;
    let tree = build_tree(&root(Some(vec![git, file("a")])));
    assert_eq!(tree.children, vec![file_node("/r/a", "a")]);
}

#[test]
fn the_root_is_never_filtered() {
    let entry = DirEntry {
        path: "/r/.git".to_string(),
        relative_path: String::new(),
        name: Some(".git".to_string()),
        is_dir: true,
    };
    let listing = Listing::directory(entry, true, Some(vec![file("HEAD")]));
    let tree = build_tree(&listing);
    assert_eq!(tree, dir_node("/r/.git", ".git", vec![file_node("/r/HEAD", "HEAD")]));
}

#[test]
fn a_directory_that_could_not_be_read_has_no_children() {
    let locked = Listing::directory(entry("locked", true), false, None);
    let tree = build_tree(&root(Some(vec![file("a"), locked, dir("open", vec![file("open/x")])])));
    let expected = dir_node(
        "/r",
        "r",
        vec![
            dir_node("/r/locked", "locked", Vec::new()),
            dir_node("/r/open", "open", vec![file_node("/r/open/x", "x")]),
            file_node("/r/a", "a"),
        ],
    );
    assert_eq!(tree, expected);
}

#[test]
fn a_root_that_could_not_be_read_is_an_empty_directory() {
    let tree = build_tree(&root(None));
    assert_eq!(tree, dir_node("/r", "r", Vec::new()));
}

#[test]
fn an_empty_directory_is_kept() {
    let tree = build_tree(&root(Some(vec![dir("empty", Vec::new())])));
    assert_eq!(tree.children, vec![dir_node("/r/empty", "empty", Vec::new())]);
}

#[test]
fn a_file_has_no_children_whatever_its_listing_holds() {
    let mut odd = file("odd");
    odd.contents = Some(vec![file("odd/x")]);
    let tree = build_tree(&root(Some(vec![odd])));
    assert_eq!(tree.children, vec![file_node("/r/odd", "odd")]);
}

#[test]
fn names_that_are_no_text_get_the_placeholder() {
    let nameless = DirEntry {
        path: "/r/\u{fffd}".to_string(),
        relative_path: "\u{fffd}".to_string(),
        name: None,
        is_dir: false,
    };
    let tree = build_tree(&root(Some(vec![file("a"), Listing::file(nameless, false)])));
    assert_eq!(
        tree.children,
        vec![file_node("/r/\u{fffd}", "Unknown"), file_node("/r/a", "a")]
    );
}

#[test]
fn every_level_is_in_display_order() {
    let deep = dir(
        "d",
        vec![
            file("d/b"),
            dir("d/y", vec![file("d/y/2"), file("d/y/1"), dir("d/y/0", Vec::new())]),
            file("d/a"),
            dir("d/x", Vec::new()),
        ],
    );
    let tree = build_tree(&root(Some(vec![file("c"), deep])));
    let d = &tree.children[0];
    let labels: Vec<&str> = d.children.iter().map(|n| n.label.as_str()).collect();
    assert_eq!(labels, vec!["x", "y", "a", "b"]);
    let y = &d.children[1];
    let labels: Vec<&str> = y.children.iter().map(|n| n.label.as_str()).collect();
    assert_eq!(labels, vec!["0", "1", "2"]);
}

#[test]
fn building_twice_gives_equal_trees() {
    let listing = layout(false);
    let first = build_tree(&listing);
    let second = build_tree(&listing);
    assert_eq!(first, second);
    assert_eq!(build_tree(&layout(true)), build_tree(&layout(true)));
}

#[test]
fn children_of_a_listing() {
    let children = build_children(&vec![
        file("b"),
        dir("a", vec![file("a/x")]),
        file(".git"),
        dir(".git", vec![file(".git/HEAD")]),
    ]);
    assert_eq!(
        children,
        vec![
            dir_node("/r/a", "a", vec![file_node("/r/a/x", "x")]),
            file_node("/r/.git", ".git"),
            file_node("/r/b", "b"),
        ]
    );
    assert!(build_children(&Vec::new()).is_empty());
}

#[test]
fn a_snapshot_holds_the_tree_and_its_root_path() {
    let snapshot = Snapshot::of_listing(&layout(false));
    assert_eq!(snapshot.root_path(), "/r");
    assert_eq!(snapshot.tree(), &build_tree(&layout(false)));
    assert_eq!(snapshot.into_tree(), build_tree(&layout(false)));
}

#[test]
fn a_snapshot_of_a_given_tree() {
    let snapshot = Snapshot::new("/r".to_string(), file_node("/r", "r"));
    assert_eq!(snapshot.root_path(), "/r");
    assert_eq!(snapshot.tree(), &file_node("/r", "r"));
}

fn ids(tree: &TreeNode, into: &mut Vec<String>) {
    into.push(tree.id.clone());
    for child in tree.children.iter() {
        ids(child, into);
    }
}

#[test]
fn the_ids_of_a_tree_are_the_paths_of_the_entries_that_stay() {
    let mut skipped = dir("skipped", vec![file("skipped/x")]);
    skipped.ignored = true;
    let listing = root(Some(vec![
        file("b"),
        dir(
            "d",
            vec![
                file("d/y"),
                file("d/.git"),
                dir("d/.git", vec![file("d/.git/HEAD")]),
                dir("d/e", vec![file("d/e/z")]),
            ],
        ),
        skipped,
        file("a"),
    ]));
    let mut found = Vec::new();
    ids(&build_tree(&listing), &mut found);
    found.sort();
    assert_eq!(
        found,
        vec!["/r", "/r/a", "/r/b", "/r/d", "/r/d/.git", "/r/d/e", "/r/d/e/z", "/r/d/y"]
    );
}
