use autocorrect::ignorer::Ignorer;
use tree_snapshot::entry::DirEntry;
use tree_snapshot::filter::is_relative_path;
use tree_snapshot::filter::judge;

fn no_rules() -> Ignorer {
    Ignorer::new("no-such-directory/for-the-rules")
}

fn entry(relative: &str) -> DirEntry {
    DirEntry {
        path: format!("/r/{}", relative),
        relative_path: relative.to_string(),
        name: Some(relative.to_string()),
        is_dir: false,
    }
}

#[test]
fn relative_paths_are_told_from_others() {
    assert!(is_relative_path(""));
    assert!(is_relative_path("a"));
    assert!(is_relative_path("a/b"));
    assert!(is_relative_path("a/b/"));
    assert!(is_relative_path("./a"));
    assert!(is_relative_path("a b/c.txt"));
    assert!(is_relative_path("中/文"));
    assert!(!is_relative_path("/"));
    assert!(!is_relative_path("/a"));
    assert!(!is_relative_path("a//b"));
    assert!(!is_relative_path("a/b//"));
    assert!(!is_relative_path("//"));
}

#[test]
fn a_directory_without_ignore_files_ignores_nothing() {
    let rules = no_rules();
    let paths = ["a", "b/x.txt", "target/debug/build", "", "./a", "a/"];
    let judged = judge(&rules, paths.iter().map(|p| entry(p)).collect());
    assert_eq!(judged.len(), paths.len());
    for (i, (judged_entry, ignored)) in judged.iter().enumerate() {
        assert_eq!(judged_entry.relative_path, paths[i]);
        assert!(!ignored);
    }
}

#[test]
fn judge_hands_each_entry_back_with_its_verdict() {
    let rules = no_rules();
    let judged = judge(&rules, vec![entry("b"), entry("a"), entry("z.txt")]);
    assert_eq!(judged.len(), 3);
    assert_eq!(judged[0], (entry("b"), false));
    assert_eq!(judged[1], (entry("a"), false));
    assert_eq!(judged[2], (entry("z.txt"), false));
}

#[test]
fn judge_of_nothing_is_nothing() {
    assert!(judge(&no_rules(), Vec::new()).is_empty());
}
