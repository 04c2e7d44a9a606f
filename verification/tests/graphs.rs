use cabbage::graph::{get_graph, WalkedFile};
use cabbage::index::{build_index, VaultFile};

#[test]
fn graph_has_notes_targets_and_link_edges() {
    let files = vec![
        VaultFile { path: "/v/a.md".to_string(), is_file: true, content: Some("[[b]] [[ghost]]".to_string()) },
        VaultFile { path: "/v/b.md".to_string(), is_file: true, content: Some("[[a]]".to_string()) },
        VaultFile { path: "/v/c.md".to_string(), is_file: true, content: Some("".to_string()) },
    ];
    let idx = build_index("/v", &files);
    let walked: Vec<WalkedFile> = files
        .iter()
        .map(|f| WalkedFile { path: f.path.clone(), is_file: true })
        .chain(std::iter::once(WalkedFile { path: "/v/readme.txt".to_string(), is_file: true }))
        .collect();
    let g = get_graph("/v", &walked, &idx);
    let mut ids: Vec<String> = g.nodes.iter().map(|n| n.id.clone()).collect();
    ids.sort();
    assert_eq!(ids, vec!["a", "b", "c", "ghost"]);
    let mut edges: Vec<(String, String)> = g.edges.iter().map(|e| (e.source.clone(), e.target.clone())).collect();
    edges.sort();
    assert_eq!(
        edges,
        vec![
            ("a".to_string(), "b".to_string()),
            ("a".to_string(), "ghost".to_string()),
            ("b".to_string(), "a".to_string()),
        ]
    );
}

#[test]
fn a_vault_inside_a_dot_directory_has_its_notes_as_nodes() {
    let files = vec![VaultFile { path: "/h/.v/a.md".to_string(), is_file: true, content: Some("[[b]]".to_string()) }];
    let idx = build_index("/h/.v", &files);
    let walked = vec![
        WalkedFile { path: "/h/.v/a.md".to_string(), is_file: true },
        WalkedFile { path: "/h/.v/.obsidian/x.md".to_string(), is_file: true },
    ];
    let g = get_graph("/h/.v", &walked, &idx);
    let mut ids: Vec<String> = g.nodes.iter().map(|n| n.id.clone()).collect();
    ids.sort();
    assert_eq!(ids, vec!["a", "b"]);
    assert_eq!(g.edges.len(), 1);
}
