use cabbage::fs::{list_directory, listing_directory, DirEntry};
use cabbage::path::PathProbe;

fn entry(name: &str, path: &str, is_dir: bool) -> DirEntry {
    DirEntry { name: name.to_string(), path: path.to_string(), is_dir }
}

#[test]
fn listing_hides_dot_entries_and_sorts_folders_first() {
    let entries = vec![
        entry("b.md", "/v/b.md", false),
        entry(".git", "/v/.git", true),
        entry("zdir", "/v/zdir", true),
        entry("a.md", "/v/a.md", false),
        entry("adir", "/v/adir", true),
        entry("B.md", "/v/B.md", false),
    ];
    let nodes = list_directory("/v", &entries);
    let got: Vec<(String, String, bool)> = nodes.into_iter().map(|n| (n.name, n.path, n.is_dir)).collect();
    assert_eq!(
        got,
        vec![
            ("adir".to_string(), "adir".to_string(), true),
            ("zdir".to_string(), "zdir".to_string(), true),
            ("B.md".to_string(), "B.md".to_string(), false),
            ("a.md".to_string(), "a.md".to_string(), false),
            ("b.md".to_string(), "b.md".to_string(), false),
        ]
    );
}

#[test]
fn listing_paths_are_vault_relative_with_slashes() {
    let entries = vec![entry("x\\y.md", "/v/sub/x\\y.md", false), entry("o.md", "/elsewhere/o.md", false)];
    let nodes = list_directory("/v", &entries);
    assert_eq!(nodes[0].path, "/elsewhere/o.md");
    assert_eq!(nodes[1].path, "sub/x/y.md");
}

#[test]
fn listing_directory_of_empty_sub_path_is_the_root() {
    assert_eq!(listing_directory("/v", "", &PathProbe::Missing), Ok("/v".to_string()));
    assert_eq!(
        listing_directory("/v", "sub", &PathProbe::Canonical("/v/sub".to_string())),
        Ok("/v/sub".to_string())
    );
    assert_eq!(
        listing_directory("/v", "..", &PathProbe::Canonical("/".to_string())),
        Err("Path traversal detected".to_string())
    );
}

#[test]
fn notes_are_created_only_where_none_exists_and_deleted_only_where_one_does() {
    assert_eq!(cabbage::fs::check_new_note("a.md", false), Ok(()));
    assert_eq!(cabbage::fs::check_new_note("a.md", true), Err("Note already exists: a.md".to_string()));
    assert_eq!(cabbage::fs::check_existing_note("a.md", true), Ok(()));
    assert_eq!(cabbage::fs::check_existing_note("a.md", false), Err("Note not found: a.md".to_string()));
}
