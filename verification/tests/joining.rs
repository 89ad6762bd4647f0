use repo_recall::join::{best_repo_for_cwd, is_ancestor_or_equal};
use repo_recall::paths::{depth_of, starts_with_path, strip_base};
use repo_recall::scanner::{is_session_file, repo_name, DirEntry, Walk};
use repo_recall::text::chars_of;

#[test]
fn paths_start_as_std_says() {
    let list = [
        "", "/", "a", "/a", "/a/b", "/a/b/", "/a//b/./c", "./a", ".", "a/./b", "a/..", "..", "/a/bc",
        "//a", "/./a", "/A/b",
    ];
    for p in list {
        assert_eq!(
            depth_of(&chars_of(p)),
            std::path::Path::new(p).components().count(),
            "{p:?}"
        );
        for b in list {
            let (path, base) = (std::path::Path::new(p), std::path::Path::new(b));
            assert_eq!(starts_with_path(&chars_of(p), &chars_of(b)), path.starts_with(base), "{p:?} {b:?}");
            assert_eq!(
                strip_base(&chars_of(p), &chars_of(b)),
                path.strip_prefix(base).ok().map(|r| r.display().to_string()),
                "{p:?} {b:?}"
            );
        }
    }
}

#[test]
fn the_deepest_repository_wins() {
    let repos = vec![
        (1, "/w".to_string()),
        (2, "/w/a/b".to_string()),
        (3, "/w/a".to_string()),
        (4, "/w/a/b".to_string()),
    ];
    assert_eq!(best_repo_for_cwd("/w/a/b/src", &repos), Some(2));
    assert_eq!(best_repo_for_cwd("/w/a", &repos), Some(3));
    assert_eq!(best_repo_for_cwd("/w/ab", &repos), Some(1));
    assert_eq!(best_repo_for_cwd("/v", &repos), None);
    assert_eq!(best_repo_for_cwd("/v", &Vec::new()), None);
}

#[test]
fn case_is_the_last_resort() {
    assert!(is_ancestor_or_equal("/Users/Me/Code", "/users/me/code"));
    assert!(is_ancestor_or_equal("/Users/Me/Code", "/users/me/code/x"));
    assert!(is_ancestor_or_equal("C:\\Code", "c:\\code\\x"));
    assert!(!is_ancestor_or_equal("/Users/Me/Code", "/users/me/coder"));
    assert!(is_ancestor_or_equal("/É", "/é/x"));
    let repos = vec![(7, "/Users/Me/Code".to_string())];
    assert_eq!(best_repo_for_cwd("/users/me/code/x", &repos), Some(7));
}

#[test]
fn leading_is_transitive_and_reflexive() {
    let (a, b, c) = (chars_of("/w"), chars_of("/w/x"), chars_of("/w/x/y"));
    assert!(starts_with_path(&b, &a) && starts_with_path(&c, &b) && starts_with_path(&c, &a));
    assert!(starts_with_path(&c, &c));
    assert_eq!(strip_base(&c, &c).as_deref(), Some(""));
}

fn dir(path: &str) -> DirEntry {
    DirEntry {
        path: path.to_string(),
        name: path.rsplit('/').next().map(String::from),
        is_dir: true,
    }
}

/// A small disk: directories and what is in them; a `.git` entry makes a repository.
fn scan(tree: &[(&str, &[&str])], repos: &[(&str, &str)], root: &str, depth: usize) -> Vec<String> {
    let mut walk = Walk::new(root, depth);
    while let Some(path) = walk.next() {
        if let Some((_, real)) = repos.iter().find(|(p, _)| *p == path) {
            walk.on_repo(real);
        } else if walk.wants_entries() {
            let entries = tree
                .iter()
                .find(|(p, _)| *p == path)
                .map(|(_, kids)| kids.iter().map(|k| dir(k)).collect())
                .unwrap_or_default();
            walk.on_entries(entries);
        } else {
            walk.on_entries(Vec::new());
        }
    }
    walk.finish().into_iter().map(|r| format!("{}={}", r.name, r.path)).collect()
}

#[test]
fn repositories_are_found_in_order() {
    let tree: &[(&str, &[&str])] = &[
        ("/r", &["/r/b", "/r/a", "/r/node_modules", "/r/.hidden", "/r/link"]),
        ("/r/b", &["/r/b/y", "/r/b/x"]),
        ("/r/node_modules", &["/r/node_modules/z"]),
        ("/r/.hidden", &["/r/.hidden/z"]),
        ("/r/a", &["/r/a/inner"]),
    ];
    let repos = [
        ("/r/b/x", "/r/b/x"),
        ("/r/b/y", "/r/b/y"),
        ("/r/a", "/r/a"),
        ("/r/a/inner", "/r/a/inner"),
        ("/r/node_modules/z", "/r/node_modules/z"),
        ("/r/.hidden/z", "/r/.hidden/z"),
        ("/r/link", "/r/b/x"),
    ];
    assert_eq!(scan(tree, &repos, "/r", 4), vec!["y=/r/b/y", "x=/r/b/x", "a=/r/a"]);
    assert_eq!(scan(tree, &repos, "/r", 1), vec!["a=/r/a", "x=/r/b/x"]);
    assert_eq!(scan(tree, &repos, "/r", 0), Vec::<String>::new());
}

#[test]
fn the_start_may_be_hidden_or_a_repository() {
    let tree: &[(&str, &[&str])] = &[("/.dot", &["/.dot/x", "/.dot/.y"])];
    let repos = [("/.dot/x", "/.dot/x"), ("/.dot/.y", "/.dot/.y")];
    assert_eq!(scan(tree, &repos, "/.dot", 4), vec!["x=/.dot/x"]);
    assert_eq!(scan(tree, &[("/.dot", "/.dot")], "/.dot", 4), vec![".dot=/.dot"]);
}

#[test]
fn heavy_directories_and_files_are_passed_over() {
    let mut walk = Walk::new("/r", 3);
    let mut entries: Vec<DirEntry> =
        ["target", "dist", "build", ".venv", "venv", "node_modules", "targets"]
            .iter()
            .map(|n| dir(&format!("/r/{n}")))
            .collect();
    entries.push(DirEntry { path: "/r/file".into(), name: Some("file".into()), is_dir: false });
    entries.push(DirEntry { path: "/r/odd".into(), name: None, is_dir: true });
    walk.on_entries(entries);
    assert_eq!(walk.next().as_deref(), Some("/r/targets"));
    walk.on_entries(Vec::new());
    assert_eq!(walk.next(), None);
    assert!(walk.finish().is_empty());
}

#[test]
fn names_are_the_last_components() {
    for p in ["/a/b", "/a/b/", "/a/b/.", "b", "/a.git"] {
        let want = std::path::Path::new(p).file_name().unwrap().to_str().unwrap();
        assert_eq!(repo_name(p), want);
    }
    for p in ["/", "..", "/a/..", "", "."] {
        assert!(std::path::Path::new(p).file_name().is_none());
        assert_eq!(repo_name(p), p);
    }
}

#[test]
fn session_files_are_known_by_their_extension() {
    for p in ["/a/b.jsonl", "b.jsonl", "/a/.jsonl", "/a/b.json", "/a/jsonl", "/a/..jsonl", "/a/b.jsonl/", "", "/", "x.JSONL"] {
        let want = std::path::Path::new(p).extension().and_then(|s| s.to_str()) == Some("jsonl");
        assert_eq!(is_session_file(p), want, "{p:?}");
    }
}
