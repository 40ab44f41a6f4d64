use tree_snapshot::entry::into_fresh_nodes;
use tree_snapshot::entry::same_text;
use tree_snapshot::entry::select;
use tree_snapshot::entry::DirEntry;
use tree_snapshot::node::TreeNode;

fn entry(name: Option<&str>, is_dir: bool) -> DirEntry {
    let shown = name.unwrap_or("?");
    DirEntry {
        path: format!("/r/{}", shown),
        relative_path: shown.to_string(),
        name: name.map(|n| n.to_string()),
        is_dir,
    }
}

#[test]
fn the_label_is_the_name() {
    assert_eq!(entry(Some("notes.txt"), false).label(), "notes.txt");
    assert_eq!(entry(Some(""), false).label(), "");
}

#[test]
fn an_entry_without_a_name_is_labelled_unknown() {
    assert_eq!(entry(None, false).label(), "Unknown");
    assert_eq!(entry(None, true).label(), "Unknown");
}

#[test]
fn only_a_directory_named_git_is_version_control_data() {
    assert!(entry(Some(".git"), true).is_vcs());
    assert!(!entry(Some(".git"), false).is_vcs());
    assert!(!entry(Some("git"), true).is_vcs());
    assert!(!entry(Some(".gitignore"), false).is_vcs());
    assert!(!entry(Some(".GIT"), true).is_vcs());
    assert!(!entry(Some("x.git"), true).is_vcs());
    assert!(!entry(Some(".gi"), true).is_vcs());
    assert!(!entry(None, true).is_vcs());
}

#[test]
fn an_entry_stays_unless_ignored_or_version_control() {
    assert!(entry(Some("a"), true).is_kept(false));
    assert!(!entry(Some("a"), true).is_kept(true));
    assert!(!entry(Some(".git"), true).is_kept(false));
    assert!(!entry(Some(".git"), true).is_kept(true));
    assert!(entry(Some(".git"), false).is_kept(false));
    assert!(!entry(Some(".git"), false).is_kept(true));
    assert!(entry(None, false).is_kept(false));
}

#[test]
fn texts_are_compared_character_by_character() {
    assert!(same_text("", ""));
    assert!(same_text(".git", ".git"));
    assert!(!same_text(".git", ".gi"));
    assert!(!same_text(".gi", ".git"));
    assert!(!same_text(".git", ".gix"));
    assert!(!same_text("", "a"));
    assert!(same_text("中文", "中文"));
}

#[test]
fn a_file_becomes_a_leaf() {
    let node = entry(Some("a.txt"), false).into_node(Vec::new());
    assert_eq!(node, TreeNode::file("/r/a.txt".to_string(), "a.txt".to_string()));
    assert!(!node.is_directory);
    assert!(node.children.is_empty());
}

#[test]
fn a_file_takes_no_children() {
    let stray = TreeNode::file("/r/x".to_string(), "x".to_string());
    let node = entry(Some("a.txt"), false).into_node(vec![stray]);
    assert!(node.children.is_empty());
}

#[test]
fn a_directory_becomes_a_node_over_its_children() {
    let child = TreeNode::file("/r/d/x".to_string(), "x".to_string());
    let node = entry(Some("d"), true).into_node(vec![child]);
    assert_eq!(node.id, "/r/d");
    assert_eq!(node.label, "d");
    assert!(node.is_directory);
    assert_eq!(node.children.len(), 1);
    assert_eq!(node.children[0].label, "x");
}

#[test]
fn select_drops_what_does_not_stay_and_keeps_the_order() {
    let kept = select(vec![
        (entry(Some("z"), false), false),
        (entry(Some("skip"), true), true),
        (entry(Some(".git"), true), false),
        (entry(Some("a"), true), false),
        (entry(None, false), false),
    ]);
    let paths: Vec<&str> = kept.iter().map(|e| e.path.as_str()).collect();
    assert_eq!(paths, vec!["/r/z", "/r/a", "/r/?"]);
}

#[test]
fn select_keeps_a_file_named_git() {
    let kept = select(vec![
        (entry(Some(".git"), false), false),
        (entry(Some(".git"), true), false),
    ]);
    assert_eq!(kept.len(), 1);
    assert_eq!(kept[0].path, "/r/.git");
    assert!(!kept[0].is_dir);
}

#[test]
fn select_of_nothing_is_nothing() {
    assert!(select(Vec::new()).is_empty());
}

#[test]
fn fresh_nodes_have_no_children() {
    let nodes = into_fresh_nodes(vec![entry(Some("d"), true), entry(None, false)]);
    assert_eq!(nodes.len(), 2);
    assert_eq!(nodes[0], TreeNode::directory("/r/d".to_string(), "d".to_string(), Vec::new()));
    assert_eq!(nodes[1], TreeNode::file("/r/?".to_string(), "Unknown".to_string()));
}
