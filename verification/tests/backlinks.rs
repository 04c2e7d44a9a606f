use cabbage::index::{
    build_index, get_backlinks, links_of_groups, note_links, remove_file, update_index, BacklinkIndex, VaultFile,
};

fn file(path: &str, content: &str) -> VaultFile {
    VaultFile { path: path.to_string(), is_file: true, content: Some(content.to_string()) }
}

#[test]
fn links_are_trimmed_bracket_free_targets() {
    assert_eq!(
        note_links("See [[Alpha]] and [[ Beta ]] and [[]] and [[a[b]] end"),
        vec!["Alpha".to_string(), "Beta".to_string()]
    );
    assert_eq!(note_links("[[x]][[x]]"), vec!["x".to_string(), "x".to_string()]);
    assert!(note_links("no links here [single]").is_empty());
}

#[test]
fn index_lists_linking_notes_in_walk_order() {
    let files = vec![
        file("/v/a.md", "[[Target]] [[Other]]"),
        file("/v/sub/b.md", "again [[Target]]"),
        file("/v/c.txt", "[[Target]]"),
        file("/v/.hidden/d.md", "[[Target]]"),
        VaultFile { path: "/v/e.md".to_string(), is_file: true, content: None },
        VaultFile { path: "/v/dir.md".to_string(), is_file: false, content: Some("[[Target]]".to_string()) },
    ];
    let idx = build_index("/v", &files);
    assert_eq!(get_backlinks(&idx, "Target"), vec!["a.md".to_string(), "sub/b.md".to_string()]);
    assert_eq!(get_backlinks(&idx, "Other"), vec!["a.md".to_string()]);
    assert!(get_backlinks(&idx, "Missing").is_empty());
}

#[test]
fn update_replaces_the_links_of_one_note() {
    let files = vec![file("/v/a.md", "[[T]] [[U]]"), file("/v/b.md", "[[T]]")];
    let mut idx = build_index("/v", &files);
    update_index(&mut idx, "a.md", Some("[[U]] [[V]]"));
    assert_eq!(get_backlinks(&idx, "T"), vec!["b.md".to_string()]);
    assert_eq!(get_backlinks(&idx, "U"), vec!["a.md".to_string()]);
    assert_eq!(get_backlinks(&idx, "V"), vec!["a.md".to_string()]);
    update_index(&mut idx, "a.md", None);
    assert!(get_backlinks(&idx, "U").is_empty());
    assert!(get_backlinks(&idx, "V").is_empty());
    assert_eq!(get_backlinks(&idx, "T"), vec!["b.md".to_string()]);
}

#[test]
fn remove_file_drops_every_link_of_the_note() {
    let files = vec![file("/v/a.md", "[[T]] [[T]]"), file("/v/b.md", "[[T]]")];
    let mut idx = build_index("/v", &files);
    assert_eq!(get_backlinks(&idx, "T"), vec!["a.md".to_string(), "a.md".to_string(), "b.md".to_string()]);
    remove_file(&mut idx, "a.md");
    assert_eq!(get_backlinks(&idx, "T"), vec!["b.md".to_string()]);
    remove_file(&mut idx, "a.md");
    assert_eq!(get_backlinks(&idx, "T"), vec!["b.md".to_string()]);
    remove_file(&mut idx, "b.md");
    assert!(get_backlinks(&idx, "T").is_empty());
}

#[test]
fn incremental_update_of_a_new_note_matches_rebuild() {
    let mut files = vec![file("/v/a.md", "[[T]]")];
    let mut idx = build_index("/v", &files);
    update_index(&mut idx, "n.md", Some("[[T]] [[N]]"));
    files.push(file("/v/n.md", "[[T]] [[N]]"));
    let rebuilt = build_index("/v", &files);
    for t in ["T", "N", "a"] {
        assert_eq!(get_backlinks(&idx, t), get_backlinks(&rebuilt, t));
    }
}

#[test]
fn empty_index_has_no_backlinks() {
    let idx = BacklinkIndex::new();
    assert!(get_backlinks(&idx, "x").is_empty());
}

fn strings(v: &[&str]) -> Vec<String> {
    v.iter().map(|s| s.to_string()).collect()
}

#[test]
fn remove_file_also_drops_lists_that_were_empty() {
    let mut idx = BacklinkIndex::new();
    idx.set_sources("b".to_string(), strings(&["a.md", "c.md", "a.md"]));
    idx.set_sources("d".to_string(), strings(&["a.md"]));
    idx.set_sources("e".to_string(), Vec::new());
    assert_eq!(idx.target_count(), 3);
    remove_file(&mut idx, "a.md");
    assert_eq!(idx.target_count(), 1);
    assert_eq!(idx.target_at(0), "b");
    assert_eq!(get_backlinks(&idx, "b"), strings(&["c.md"]));
    assert!(get_backlinks(&idx, "d").is_empty());
    assert!(get_backlinks(&idx, "e").is_empty());
}

#[test]
fn set_sources_replaces_a_list() {
    let mut idx = BacklinkIndex::new();
    idx.set_sources("t".to_string(), strings(&["x.md"]));
    idx.set_sources("t".to_string(), strings(&["y.md", "z.md"]));
    assert_eq!(idx.target_count(), 1);
    assert_eq!(get_backlinks(&idx, "t"), strings(&["y.md", "z.md"]));
}

#[test]
fn wiki_links_are_leftmost_and_do_not_overlap() {
    assert_eq!(note_links("[[a[[b]]"), strings(&["b"]));
    assert_eq!(note_links("[[one]]]] [[two\nlines]]"), strings(&["one", "two\nlines"]));
    assert_eq!(note_links("[[[x]]"), strings(&["x"]));
    assert!(note_links("[[a]").is_empty());
}

#[test]
fn links_of_groups_trims_and_skips_missing_groups() {
    let groups = vec![Some(" a ".to_string()), None, Some("b".to_string())];
    assert_eq!(links_of_groups(&groups), strings(&["a", "b"]));
}

#[test]
fn a_vault_inside_a_dot_directory_is_indexed() {
    let files = vec![file("/home/u/.vault/a.md", "[[b]]"), file("/home/u/.vault/.git/c.md", "[[b]]")];
    let idx = build_index("/home/u/.vault", &files);
    assert_eq!(get_backlinks(&idx, "b"), strings(&["a.md"]));
    assert_eq!(idx.target_count(), 1);
}

#[test]
fn incremental_update_of_a_changed_note_matches_rebuild() {
    let mut files = vec![file("/v/a.md", "[[T]] [[U]]"), file("/v/b.md", "[[T]]")];
    let mut idx = build_index("/v", &files);
    update_index(&mut idx, "a.md", Some("[[U]] [[T]] [[T]]"));
    files[0] = file("/v/a.md", "[[U]] [[T]] [[T]]");
    let rebuilt = build_index("/v", &files);
    assert_eq!(idx.target_count(), rebuilt.target_count());
    for t in ["T", "U"] {
        let mut mine = get_backlinks(&idx, t);
        let mut theirs = get_backlinks(&rebuilt, t);
        mine.sort();
        theirs.sort();
        assert_eq!(mine, theirs);
    }
}

#[test]
fn incremental_update_of_a_deleted_note_matches_rebuild() {
    let mut files = vec![file("/v/a.md", "[[T]] [[U]]"), file("/v/b.md", "[[T]]")];
    let mut idx = build_index("/v", &files);
    update_index(&mut idx, "a.md", None);
    files[0] = VaultFile { path: "/v/a.md".to_string(), is_file: true, content: None };
    let rebuilt = build_index("/v", &files);
    assert_eq!(idx.target_count(), rebuilt.target_count());
    assert_eq!(get_backlinks(&idx, "T"), get_backlinks(&rebuilt, "T"));
    assert!(get_backlinks(&idx, "U").is_empty());
}
