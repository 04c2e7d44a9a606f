use cabbage::path::{
    is_note, join_path, path_components, path_file_name, path_file_stem, path_starts_with,
    relative_path, resolve_safe_path, strip_prefix, Component, PathProbe,
};

fn describe(c: &Component) -> String {
    match c {
        Component::RootDir => "/".to_string(),
        Component::CurDir => ".".to_string(),
        Component::ParentDir => "..".to_string(),
        Component::Normal(n) => format!("[{}]", n),
    }
}

fn parts(s: &str) -> Vec<String> {
    path_components(s).iter().map(describe).collect()
}

#[test]
fn components_drop_empty_pieces_and_dots() {
    assert_eq!(parts("/a//b/./c/"), vec!["/", "[a]", "[b]", "[c]"]);
    assert_eq!(parts("./a"), vec![".", "[a]"]);
    assert_eq!(parts("../x"), vec!["..", "[x]"]);
    assert_eq!(parts("a/../b"), vec!["[a]", "..", "[b]"]);
    assert_eq!(parts("."), vec!["."]);
    assert!(parts("").is_empty());
    assert_eq!(parts("a/.../b"), vec!["[a]", "[...]", "[b]"]);
}

#[test]
fn join_places_one_separator() {
    assert_eq!(join_path("/v", "n.md"), "/v/n.md");
    assert_eq!(join_path("/v/", "n.md"), "/v/n.md");
    assert_eq!(join_path("/v", "/etc/x"), "/etc/x");
    assert_eq!(join_path("", "a"), "a");
    assert_eq!(join_path("/v", ""), "/v/");
}

#[test]
fn resolve_accepts_paths_inside_the_vault() {
    let r = resolve_safe_path(Some("/v"), "notes/a.md", &PathProbe::Missing);
    assert_eq!(r, Ok("/v/notes/a.md".to_string()));
    let r = resolve_safe_path(Some("/v"), "a/../b.md", &PathProbe::Missing);
    assert_eq!(r, Ok("/v/a/../b.md".to_string()));
    let r = resolve_safe_path(Some("/v"), "x.md", &PathProbe::Canonical("/v/x.md".to_string()));
    assert_eq!(r, Ok("/v/x.md".to_string()));
}

#[test]
fn resolve_refuses_traversal() {
    let bad = Err("Path traversal detected".to_string());
    assert_eq!(resolve_safe_path(Some("/v"), "../x.md", &PathProbe::Missing), bad);
    assert_eq!(resolve_safe_path(Some("/v"), "a/../../x.md", &PathProbe::Missing), bad);
    assert_eq!(resolve_safe_path(Some("/v"), "/v2/x.md", &PathProbe::Missing), bad);
    assert_eq!(resolve_safe_path(Some("/v"), "/etc/passwd", &PathProbe::Missing), bad);
    assert_eq!(
        resolve_safe_path(Some("/v"), "link.md", &PathProbe::Canonical("/etc/passwd".to_string())),
        bad
    );
}

#[test]
fn resolve_reports_other_errors() {
    assert_eq!(
        resolve_safe_path(None, "a.md", &PathProbe::Missing),
        Err("Invalid vault path".to_string())
    );
    assert_eq!(
        resolve_safe_path(Some("/v"), "a.md", &PathProbe::CanonicalizeFailed("boom".to_string())),
        Err("boom".to_string())
    );
}

#[test]
fn prefixes_compare_components() {
    assert!(path_starts_with("/v/a", "/v"));
    assert!(path_starts_with("/v/a", "/v/"));
    assert!(!path_starts_with("/vault/a", "/v"));
    assert_eq!(strip_prefix("/v/a/b.md", "/v"), Some("a/b.md".to_string()));
    assert_eq!(strip_prefix("/w/a.md", "/v"), None);
    assert_eq!(relative_path("/w/a.md", "/v"), "/w/a.md");
    assert_eq!(relative_path("/v//a/b.md", "/v"), "a/b.md");
}

#[test]
fn notes_are_visible_markdown_files() {
    assert!(is_note("/v/a.md"));
    assert!(is_note("/v/sub/a.b.md"));
    assert!(!is_note("/v/.git/a.md"));
    assert!(!is_note("/v/.hidden.md"));
    assert!(!is_note("/v/a.txt"));
    assert!(!is_note("/v/a.MD"));
    assert!(!is_note("/v/.md"));
    assert!(!is_note("/home/u/.vaults/v/a.md"));
}

#[test]
fn names_and_stems() {
    assert_eq!(path_file_name("/v/a.md"), Some("a.md".to_string()));
    assert_eq!(path_file_name("/v/.."), None);
    assert_eq!(path_file_stem("/v/a.b.md"), Some("a.b".to_string()));
    assert_eq!(path_file_stem("/v/.bashrc"), Some(".bashrc".to_string()));
    assert_eq!(path_file_stem("/v/plain"), Some("plain".to_string()));
    assert_eq!(path_file_stem("/"), None);
}

#[test]
fn normalisation_is_idempotent_and_keeps_the_root() {
    let once = cabbage::path::normalize_components(&path_components("/v/a/../../../b/./c/.."));
    let shown: Vec<String> = once.iter().map(describe).collect();
    assert_eq!(shown, vec!["/", "[b]"]);
    let twice = cabbage::path::normalize_components(&once);
    assert_eq!(twice.iter().map(describe).collect::<Vec<_>>(), shown);
    let rel = cabbage::path::normalize_components(&path_components("./a/../../x"));
    assert_eq!(rel.iter().map(describe).collect::<Vec<_>>(), vec!["[x]"]);
}
