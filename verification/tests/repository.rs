use cabbage::git::{
    branch_ref, commit_message, credential_attempts, credential_user, dirty_tree_message,
    fallback_identity, fetch_refspec, get_note_history, git_dir, has_uncommitted_changes,
    missing_at_commit_message, no_credentials_message, note_text, parse_commit_hash,
    push_refspec, rebase_decision, should_commit, staging_plan, sync_complete, CommitRecord,
    Credential, NoteHistory, RebaseAction, RebaseStep, StagePlan, SyncAction, SyncEvent,
    SyncSession, SyncStage, step_failure, GitStep, no_head_message, head_without_target_message,
    missing_fetch_head_message,
};

fn rec(i: i64, touches: bool) -> CommitRecord {
    CommitRecord {
        hash: format!("h{}", i),
        summary: Some(format!("Update n{}", i)),
        author: Some("me".to_string()),
        seconds: i,
        touches,
    }
}

#[test]
fn history_keeps_touching_commits_up_to_fifty() {
    let commits: Vec<CommitRecord> = (0..120).map(|i| rec(i, i % 2 == 0)).collect();
    let h = get_note_history(commits);
    assert_eq!(h.len(), 50);
    assert_eq!(h[0].hash, "h0");
    assert_eq!(h[1].hash, "h2");
    assert_eq!(h[49].hash, "h98");
    assert_eq!(h[0].timestamp, "1970-01-01T00:00:00+00:00");
    assert_eq!(h[1].message, "Update n2");
    assert_eq!(h[1].author, "me");
}

#[test]
fn history_entries_fill_missing_texts_with_empty() {
    let c = CommitRecord { hash: "x".to_string(), summary: None, author: None, seconds: i64::MAX, touches: true };
    let h = get_note_history(vec![c]);
    assert_eq!(h[0].message, "");
    assert_eq!(h[0].author, "");
    assert_eq!(h[0].timestamp, "");
    let mut nh = NoteHistory::new();
    assert!(!nh.is_full());
    for i in 0..60 {
        nh.offer(rec(i, true));
    }
    assert!(nh.is_full());
    assert_eq!(nh.into_entries().len(), 50);
}

#[test]
fn commit_hashes_are_parsed_like_git() {
    assert_eq!(
        parse_commit_hash("0123456789abcdef0123456789ABCDEF01234567").unwrap(),
        vec![
            0x01, 0x23, 0x45, 0x67, 0x89, 0xab, 0xcd, 0xef, 0x01, 0x23, 0x45, 0x67, 0x89, 0xab, 0xcd, 0xef, 0x01,
            0x23, 0x45, 0x67
        ]
    );
    let mut short = vec![0u8; 20];
    short[0] = 0xab;
    short[1] = 0xc0;
    assert_eq!(parse_commit_hash("abc").unwrap(), short);
    assert_eq!(
        parse_commit_hash("zz").err().unwrap(),
        "Invalid commit hash 'zz': unable to parse OID - contains invalid characters; class=Invalid (3)"
    );
    assert_eq!(
        parse_commit_hash("").err().unwrap(),
        "Invalid commit hash '': unable to parse OID - too short; class=Invalid (3)"
    );
    let long = "a".repeat(41);
    assert_eq!(
        parse_commit_hash(&long).err().unwrap(),
        format!("Invalid commit hash '{}': unable to parse OID - too long; class=Invalid (3)", long)
    );
}

#[test]
fn stored_notes_are_read_as_utf8() {
    assert_eq!(note_text("héllo".as_bytes()), Ok("héllo".to_string()));
    assert_eq!(
        note_text(&[0xff, 0x41]),
        Err("Note is not valid UTF-8: invalid utf-8 sequence of 1 bytes from index 0".to_string())
    );
    assert_eq!(missing_at_commit_message("a.md", "0123456789abcdef"), "'a.md' not found at commit 01234567");
    assert_eq!(missing_at_commit_message("a.md", "0123"), "'a.md' not found at commit 0123");
}

#[test]
fn staging_and_commit_decisions() {
    assert!(matches!(staging_plan("--all", true), StagePlan::All));
    assert!(matches!(staging_plan("a.md", true), StagePlan::Add(p) if p == "a.md"));
    assert!(matches!(staging_plan("a.md", false), StagePlan::Remove(p) if p == "a.md"));
    assert_eq!(commit_message("a.md"), "Update a.md");
    assert!(!should_commit(Some("abc"), "abc"));
    assert!(should_commit(Some("abc"), "abd"));
    assert!(should_commit(None, "abc"));
    assert_eq!(fallback_identity(), ("Cabbage".to_string(), "cabbage@local".to_string()));
    assert_eq!(git_dir("/v"), "/v/.git");
}

#[test]
fn dirty_statuses_block_a_sync() {
    assert!(!has_uncommitted_changes(&vec![]));
    assert!(!has_uncommitted_changes(&vec![0]));
    assert!(has_uncommitted_changes(&vec![0, 1 << 8]));
    assert!(!has_uncommitted_changes(&vec![(1 << 14) | (1 << 7)]));
    assert!(!has_uncommitted_changes(&vec![1 << 15, 1 << 3]));
    let mut s = SyncSession::new();
    assert_eq!(s.step(&SyncEvent::Started), (SyncAction::CheckStatus, Some("Checking repository state...".to_string())));
    assert_eq!(s.step(&SyncEvent::StatusRead(vec![2])), (SyncAction::FailDirty, None));
    assert_eq!(s.stage, SyncStage::Done);
    assert_eq!(s.step(&SyncEvent::Integrated), (SyncAction::Ignore, None));
    assert_eq!(dirty_tree_message(), "Uncommitted changes detected. Auto-commit or stash before syncing.");
}

#[test]
fn a_clean_sync_fetches_integrates_and_pushes() {
    let mut s = SyncSession::new();
    s.step(&SyncEvent::Started);
    assert_eq!(s.step(&SyncEvent::StatusRead(vec![0])), (SyncAction::Fetch, Some("Fetching from remote...".to_string())));
    assert_eq!(s.step(&SyncEvent::Fetched), (SyncAction::AnalyzeMerge, None));
    assert_eq!(
        s.step(&SyncEvent::Analyzed { up_to_date: false, fast_forward: false }),
        (SyncAction::Rebase, Some("Rebasing local commits...".to_string()))
    );
    assert_eq!(s.step(&SyncEvent::Integrated), (SyncAction::Push, Some("Pushing to remote...".to_string())));
    assert_eq!(s.step(&SyncEvent::Pushed), (SyncAction::Finish, None));
    let done = sync_complete();
    assert!(done.success);
    assert_eq!(done.output, "Sync complete");
    let mut t = SyncSession::new();
    t.step(&SyncEvent::Started);
    t.step(&SyncEvent::StatusRead(vec![]));
    t.step(&SyncEvent::Fetched);
    assert_eq!(
        t.step(&SyncEvent::Analyzed { up_to_date: true, fast_forward: true }),
        (SyncAction::KeepLocal, Some("Already up to date.".to_string()))
    );
    let mut u = SyncSession::new();
    u.step(&SyncEvent::Started);
    u.step(&SyncEvent::StatusRead(vec![]));
    u.step(&SyncEvent::Fetched);
    assert_eq!(
        u.step(&SyncEvent::Analyzed { up_to_date: false, fast_forward: true }),
        (SyncAction::FastForward, Some("Fast-forwarding...".to_string()))
    );
    assert_eq!(push_refspec("main"), "refs/heads/main:refs/heads/main");
    assert_eq!(fetch_refspec("main"), "main");
    assert_eq!(branch_ref("main"), "refs/heads/main");
}

#[test]
fn events_out_of_order_are_ignored() {
    let mut s = SyncSession::new();
    assert_eq!(s.step(&SyncEvent::Pushed), (SyncAction::Ignore, None));
    assert_eq!(s.stage, SyncStage::Idle);
}

#[test]
fn rebase_steps() {
    assert!(matches!(rebase_decision(&RebaseStep::Finished), RebaseAction::Finish));
    assert!(matches!(rebase_decision(&RebaseStep::Applied { has_conflicts: false }), RebaseAction::Commit));
    match rebase_decision(&RebaseStep::Applied { has_conflicts: true }) {
        RebaseAction::Abort(m) => assert_eq!(m, "Merge conflict detected. Sync aborted. Resolve manually."),
        _ => panic!("expected an abort"),
    }
    match rebase_decision(&RebaseStep::Failed("oops".to_string())) {
        RebaseAction::Abort(m) => assert_eq!(m, "Merge conflict detected. Sync aborted. Resolve manually. (oops)"),
        _ => panic!("expected an abort"),
    }
}

#[test]
fn credentials_are_tried_in_order() {
    let all = credential_attempts(true, true, "/home/u");
    assert_eq!(all.len(), 5);
    assert!(matches!(&all[0], Credential::Agent));
    assert!(matches!(&all[1], Credential::KeyFile(p) if p == "/home/u/.ssh/id_ed25519"));
    assert!(matches!(&all[2], Credential::KeyFile(p) if p == "/home/u/.ssh/id_ecdsa"));
    assert!(matches!(&all[3], Credential::KeyFile(p) if p == "/home/u/.ssh/id_rsa"));
    assert!(matches!(&all[4], Credential::Default));
    assert_eq!(credential_attempts(false, false, "").len(), 0);
    assert!(matches!(&credential_attempts(true, false, "")[1], Credential::KeyFile(p) if p == ".ssh/id_ed25519"));
    assert_eq!(credential_user(None), "git");
    assert_eq!(credential_user(Some("bob")), "bob");
    assert!(no_credentials_message().starts_with("No suitable credentials found."));
}

#[test]
fn staging_failures_name_the_file() {
    assert_eq!(StagePlan::All.failure_message(true, "e"), "index update failed: e");
    assert_eq!(StagePlan::All.failure_message(false, "e"), "index add_all failed: e");
    assert_eq!(staging_plan("a.md", true).failure_message(false, "e"), "index add 'a.md' failed: e");
    assert_eq!(staging_plan("a.md", false).failure_message(false, "e"), "index remove 'a.md' failed: e");
}

#[test]
fn failed_steps_are_reported_with_the_git_error() {
    assert_eq!(step_failure(&GitStep::FindRemote, "boom"), "Remote 'origin' not found: boom");
    assert_eq!(step_failure(&GitStep::FindCommit, "odb"), "Commit not found: odb");
    assert_eq!(step_failure(&GitStep::OpenRepository, "e"), "Failed to open git repository: e");
    assert_eq!(step_failure(&GitStep::Init, "e"), "git init failed: e");
    assert_eq!(step_failure(&GitStep::Commit, "e"), "commit failed: e");
    assert_eq!(step_failure(&GitStep::ReadStatus, "e"), "Failed to check repo status: e");
    assert_eq!(step_failure(&GitStep::Fetch, "e"), "Fetch failed: e");
    assert_eq!(step_failure(&GitStep::Push, "e"), "Push failed: e");
    assert_eq!(step_failure(&GitStep::RebaseInit, "e"), "Rebase init failed: e");
    assert_eq!(step_failure(&GitStep::RebaseCommit, "e"), "Rebase commit failed: e");
    assert_eq!(step_failure(&GitStep::RebaseFinish, "e"), "Rebase finish failed: e");
    assert_eq!(no_head_message(), "No HEAD reference found");
    assert_eq!(head_without_target_message(), "HEAD has no target OID");
    assert_eq!(missing_fetch_head_message(), "FETCH_HEAD not found \u{2014} remote may have no commits yet");
}

#[test]
fn a_written_note_reads_back() {
    let text = "caf\u{e9} [[link]]\n";
    assert_eq!(note_text(text.as_bytes()), Ok(text.to_string()));
}

#[test]
fn the_same_tree_is_not_committed_twice() {
    assert!(!should_commit(Some("abc"), "abc"));
    assert!(should_commit(None, "abc"));
}

#[test]
fn the_newest_touching_commit_heads_the_history() {
    let h = get_note_history(vec![rec(3, true), rec(2, false), rec(1, true)]);
    assert_eq!(h[0].hash, "h3");
    assert_eq!(h[0].message, "Update n3");
    assert_eq!(h.len(), 2);
}

#[test]
fn a_commit_touches_a_note_by_its_diff_or_its_root_tree() {
    assert!(cabbage::git::commit_touches(true, 2, false));
    assert!(!cabbage::git::commit_touches(true, 0, true));
    assert!(cabbage::git::commit_touches(false, 0, true));
    assert!(!cabbage::git::commit_touches(false, 0, false));
}

#[test]
fn a_written_commit_id_parses_to_its_bytes() {
    let id: Vec<u8> = (0u8..20).map(|i| i.wrapping_mul(37).wrapping_add(5)).collect();
    let text: String = id.iter().map(|b| format!("{:02x}", b)).collect();
    assert_eq!(parse_commit_hash(&text).unwrap(), id);
}
