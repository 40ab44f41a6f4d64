use autocorrect::ignorer::Ignorer;
use std::collections::HashMap;
use tree_snapshot::entry::DirEntry;
use tree_snapshot::listing::Listing;
use tree_snapshot::node::TreeNode;
use tree_snapshot::snapshot::build_tree;
use tree_snapshot::walk::TreeWalk;

type Disk = HashMap<String, Vec<(DirEntry, bool)>>;

fn entry(relative: &str, is_dir: bool) -> DirEntry {
    let name = relative.rsplit('/').next().unwrap();
    DirEntry {
        path: format!("/r/{}", relative),
        relative_path: relative.to_string(),
        name: Some(name.to_string()),
        is_dir,
    }
}

fn root_entry(is_dir: bool) -> DirEntry {
    DirEntry {
        path: "/r".to_string(),
        relative_path: String::new(),
        name: Some("r".to_string()),
        is_dir,
    }
}

fn file_node(path: &str, label: &str) -> TreeNode {
    TreeNode::file(path.to_string(), label.to_string())
}

fn dir_node(path: &str, label: &str, children: Vec<TreeNode>) -> TreeNode {
    TreeNode::directory(path.to_string(), label.to_string(), children)
}

/// Drives a walk over a table of directories and records what it asked for.
fn run(disk: &Disk) -> (TreeNode, Vec<String>) {
    let mut walk = TreeWalk::new(root_entry(true));
    let mut asked = Vec::new();
    loop {
        let path = match walk.awaited() {
            Some(path) => path.clone(),
            None => break,
        };
        asked.push(path.clone());
        walk.supply_judged(disk.get(&path).cloned());
    }
    assert!(walk.is_over());
    (walk.finish(), asked)
}

fn layout(b_ignored: bool) -> Disk {
    let mut disk = Disk::new();
    disk.insert(
        "/r".to_string(),
        vec![
            (entry("b", true), b_ignored),
            (entry("a", true), false),
            (entry("z.txt", false), false),
        ],
    );
    disk.insert("/r/a".to_string(), Vec::new());
    disk.insert("/r/b".to_string(), vec![(entry("b/x.txt", false), false)]);
    disk
}

#[test]
fn a_walk_with_nothing_ignored() {
    let (tree, asked) = run(&layout(false));
    let expected = dir_node(
        "/r",
        "r",
        vec![
            dir_node("/r/a", "a", Vec::new()),
            dir_node("/r/b", "b", vec![file_node("/r/b/x.txt", "x.txt")]),
            file_node("/r/z.txt", "z.txt"),
        ],
    );
    assert_eq!(tree, expected);
    assert_eq!(asked, vec!["/r", "/r/a", "/r/b"]);
}

#[test]
fn a_walk_never_asks_for_an_ignored_directory() {
    let (tree, asked) = run(&layout(true));
    let expected = dir_node(
        "/r",
        "r",
        vec![dir_node("/r/a", "a", Vec::new()), file_node("/r/z.txt", "z.txt")],
    );
    assert_eq!(tree, expected);
    assert_eq!(asked, vec!["/r", "/r/a"]);
}

#[test]
fn a_walk_never_asks_for_version_control_data() {
    let mut disk = Disk::new();
    disk.insert(
        "/r".to_string(),
        vec![(entry(".git", true), false), (entry("src", true), false)],
    );
    disk.insert("/r/.git".to_string(), vec![(entry(".git/HEAD", false), false)]);
    disk.insert(
        "/r/src".to_string(),
        vec![(entry("src/.git", true), false), (entry("src/lib.rs", false), false)],
    );
    let (tree, asked) = run(&disk);
    let expected = dir_node(
        "/r",
        "r",
        vec![dir_node("/r/src", "src", vec![file_node("/r/src/lib.rs", "lib.rs")])],
    );
    assert_eq!(tree, expected);
    assert_eq!(asked, vec!["/r", "/r/src"]);
}

#[test]
fn a_walk_keeps_a_file_named_git() {
    let mut disk = Disk::new();
    disk.insert(
        "/r".to_string(),
        vec![(entry("sub", true), false), (entry(".git", false), false)],
    );
    disk.insert(
        "/r/sub".to_string(),
        vec![(entry("sub/.git", false), false), (entry("sub/a", false), false)],
    );
    let (tree, asked) = run(&disk);
    let expected = dir_node(
        "/r",
        "r",
        vec![
            dir_node(
                "/r/sub",
                "sub",
                vec![file_node("/r/sub/.git", ".git"), file_node("/r/sub/a", "a")],
            ),
            file_node("/r/.git", ".git"),
        ],
    );
    assert_eq!(tree, expected);
    assert_eq!(asked, vec!["/r", "/r/sub"]);
}

#[test]
fn a_directory_that_cannot_be_read_stays_empty_and_the_walk_goes_on() {
    let mut disk = Disk::new();
    disk.insert(
        "/r".to_string(),
        vec![
            (entry("open", true), false),
            (entry("locked", true), false),
            (entry("a", false), false),
        ],
    );
    disk.insert("/r/open".to_string(), vec![(entry("open/x", false), false)]);
    let (tree, asked) = run(&disk);
    let expected = dir_node(
        "/r",
        "r",
        vec![
            dir_node("/r/locked", "locked", Vec::new()),
            dir_node("/r/open", "open", vec![file_node("/r/open/x", "x")]),
            file_node("/r/a", "a"),
        ],
    );
    assert_eq!(tree, expected);
    assert_eq!(asked, vec!["/r", "/r/locked", "/r/open"]);
}

#[test]
fn a_root_that_cannot_be_read_gives_an_empty_tree() {
    let (tree, asked) = run(&Disk::new());
    assert_eq!(tree, dir_node("/r", "r", Vec::new()));
    assert_eq!(asked, vec!["/r"]);
}

#[test]
fn a_root_that_is_a_file_awaits_nothing() {
    let walk = TreeWalk::new(root_entry(false));
    assert!(walk.awaited().is_none());
    assert!(walk.is_over());
    assert_eq!(walk.finish(), file_node("/r", "r"));
}

#[test]
fn a_walk_that_is_over_takes_nothing() {
    let mut walk = TreeWalk::new(root_entry(true));
    walk.supply_judged(Some(vec![(entry("a", false), false)]));
    assert!(walk.is_over());
    walk.supply_judged(Some(vec![(entry("b", false), false)]));
    walk.receive(vec![entry("c", false)]);
    assert_eq!(walk.finish(), dir_node("/r", "r", vec![file_node("/r/a", "a")]));
}

#[test]
fn a_walk_goes_depth_first_in_display_order() {
    let mut disk = Disk::new();
    disk.insert(
        "/r".to_string(),
        vec![
            (entry("f", false), false),
            (entry("y", true), false),
            (entry("x", true), false),
        ],
    );
    disk.insert(
        "/r/x".to_string(),
        vec![(entry("x/2", true), false), (entry("x/1", true), false)],
    );
    disk.insert("/r/x/1".to_string(), vec![(entry("x/1/deep", true), false)]);
    disk.insert("/r/x/1/deep".to_string(), Vec::new());
    disk.insert("/r/x/2".to_string(), vec![(entry("x/2/leaf", false), false)]);
    disk.insert("/r/y".to_string(), Vec::new());
    let (tree, asked) = run(&disk);
    assert_eq!(asked, vec!["/r", "/r/x", "/r/x/1", "/r/x/1/deep", "/r/x/2", "/r/y"]);
    let expected = dir_node(
        "/r",
        "r",
        vec![
            dir_node(
                "/r/x",
                "x",
                vec![
                    dir_node("/r/x/1", "1", vec![dir_node("/r/x/1/deep", "deep", Vec::new())]),
                    dir_node("/r/x/2", "2", vec![file_node("/r/x/2/leaf", "leaf")]),
                ],
            ),
            dir_node("/r/y", "y", Vec::new()),
            file_node("/r/f", "f"),
        ],
    );
    assert_eq!(tree, expected);
}

#[test]
fn the_tree_is_there_as_far_as_it_is_built() {
    let mut walk = TreeWalk::new(root_entry(true));
    walk.supply_judged(Some(vec![(entry("d", true), false), (entry("a", false), false)]));
    assert_eq!(walk.awaited().unwrap(), "/r/d");
    assert!(!walk.is_over());
    let expected =
        dir_node("/r", "r", vec![dir_node("/r/d", "d", Vec::new()), file_node("/r/a", "a")]);
    assert_eq!(walk.finish(), expected);
}

#[test]
fn a_walk_gives_the_tree_of_the_listing_it_was_fed() {
    let (walked, _) = run(&layout(false));
    let b = Listing::directory(
        entry("b", true),
        false,
        Some(vec![Listing::file(entry("b/x.txt", false), false)]),
    );
    let a = Listing::directory(entry("a", true), false, Some(Vec::new()));
    let z = Listing::file(entry("z.txt", false), false);
    let listing = Listing::directory(root_entry(true), false, Some(vec![b, a, z]));
    assert_eq!(walked, build_tree(&listing));
}

#[test]
fn a_walk_asks_the_rules_about_each_entry() {
    let rules = Ignorer::new("no-such-directory/for-the-rules");
    let mut walk = TreeWalk::new(root_entry(true));
    walk.supply(
        &rules,
        Some(vec![entry("b", false), entry(".git", true), entry("a", false)]),
    );
    assert!(walk.is_over());
    let expected = dir_node("/r", "r", vec![file_node("/r/a", "a"), file_node("/r/b", "b")]);
    assert_eq!(walk.finish(), expected);
}

#[test]
fn a_listing_that_failed_is_supplied_as_none() {
    let rules = Ignorer::new("no-such-directory/for-the-rules");
    let mut walk = TreeWalk::new(root_entry(true));
    walk.supply(&rules, None);
    assert!(walk.is_over());
    assert_eq!(walk.finish(), dir_node("/r", "r", Vec::new()));
}

/// The directories of a listing that can be read, each under its path.
fn disk_of(listing: &Listing, disk: &mut Disk) {
    if let Some(contents) = &listing.contents {
        let judged = contents.iter().map(|l| (l.entry.clone(), l.ignored)).collect();
        disk.insert(listing.entry.path.clone(), judged);
        for inner in contents {
            if inner.entry.is_dir {
                disk_of(inner, disk);
            }
        }
    }
}

fn listed(relative: &str, ignored: bool, contents: Option<Vec<Listing>>) -> Listing {
    Listing::directory(entry(relative, true), ignored, contents)
}

fn plain(relative: &str, ignored: bool) -> Listing {
    Listing::file(entry(relative, false), ignored)
}

#[test]
fn a_walk_and_a_build_agree_on_a_mixed_listing() {
    let listing = Listing::directory(
        root_entry(true),
        true,
        Some(vec![
            plain("zeta", false),
            listed(
                "src",
                false,
                Some(vec![
                    plain("src/main.rs", false),
                    listed("src/.git", false, Some(vec![plain("src/.git/HEAD", false)])),
                    listed("src/deep", false, Some(vec![listed("src/deep/er", false, None)])),
                    plain("src/a.log", true),
                    listed("src/Deep", false, Some(Vec::new())),
                ]),
            ),
            listed("target", true, Some(vec![plain("target/out", false)])),
            plain(".git", false),
            listed("locked", false, None),
            plain("Alpha", false),
            listed("docs", false, Some(vec![plain("docs/b.md", false), plain("docs/a.md", false)])),
        ]),
    );
    let mut disk = Disk::new();
    disk_of(&listing, &mut disk);
    let (walked, asked) = run(&disk);
    assert_eq!(walked, build_tree(&listing));
    assert_eq!(
        asked,
        vec!["/r", "/r/docs", "/r/locked", "/r/src", "/r/src/Deep", "/r/src/deep", "/r/src/deep/er"]
    );
}
