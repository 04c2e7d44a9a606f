use cabbage::index::{build_index, VaultFile};
use cabbage::state::{check_vault_dir, AppState};

#[test]
fn state_starts_without_a_vault() {
    let s = AppState::new();
    assert!(s.current_vault.is_none());
    assert_eq!(s.vault_root(), Err("Vault not opened".to_string()));
    assert!(s.backlinks_of("x").is_empty());
}

#[test]
fn opening_a_vault_sets_root_and_backlinks() {
    let mut s = AppState::new();
    let idx = build_index(
        "/v",
        &vec![VaultFile { path: "/v/a.md".to_string(), is_file: true, content: Some("[[x]]".to_string()) }],
    );
    s.open_vault("/v".to_string(), idx);
    assert_eq!(s.vault_root(), Ok("/v".to_string()));
    assert_eq!(s.backlinks_of("x"), vec!["a.md".to_string()]);
    assert_eq!(check_vault_dir(false), Err("Invalid vault path".to_string()));
    assert_eq!(check_vault_dir(true), Ok(()));
}
