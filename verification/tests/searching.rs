use cabbage::search::{classify_candidate, needs_content, search_notes, NoteCandidate, SearchResult};

fn cand(path: &str, name: &str, content: &str) -> NoteCandidate {
    NoteCandidate { path: path.to_string(), file_name: name.to_string(), is_file: true, content: content.to_string() }
}

fn summary(rs: &[SearchResult]) -> Vec<(String, String, String)> {
    rs.iter().map(|r| (r.path.clone(), r.name.clone(), r.snippet.clone())).collect()
}

#[test]
fn name_matches_come_first_and_content_matches_get_snippets() {
    let cs = vec![
        cand("/v/one.md", "one.md", "nothing about cats"),
        cand("/v/Cats.md", "Cats.md", ""),
        cand("/v/two.md", "two.md", "some CAT facts"),
        cand("/v/cat2.md", "cat2.md", ""),
        cand("/v/cat.txt", "cat.txt", "cat"),
        cand("/v/none.md", "none.md", "dogs"),
    ];
    let rs = search_notes("/v", "Cat", &cs);
    assert_eq!(
        summary(&rs),
        vec![
            ("cat2.md".to_string(), "cat2.md".to_string(), "cat2.md".to_string()),
            ("Cats.md".to_string(), "Cats.md".to_string(), "Cats.md".to_string()),
            ("one.md".to_string(), "one.md".to_string(), "nothing about cats".to_string()),
            ("two.md".to_string(), "two.md".to_string(), "some CAT facts".to_string()),
        ]
    );
}

#[test]
fn snippets_are_cut_with_ellipses() {
    let before = "a".repeat(50);
    let after = "b".repeat(100);
    let content = format!("{}key{}", before, after);
    let rs = search_notes("/v", "key", &vec![cand("/v/n.md", "n.md", &content)]);
    let expected = format!("\u{2026}{}key{}\u{2026}", "a".repeat(40), "b".repeat(80));
    assert_eq!(rs[0].snippet, expected);
}

#[test]
fn search_stops_at_twenty_name_matches() {
    let cs: Vec<NoteCandidate> = (0..30).map(|i| cand(&format!("/v/n{}.md", i), &format!("n{}.md", i), "")).collect();
    let rs = search_notes("/v", "n", &cs);
    assert_eq!(rs.len(), 20);
    assert_eq!(rs[0].name, "n19.md");
    assert_eq!(rs[19].name, "n0.md");
}

#[test]
fn a_name_match_after_twenty_content_matches_is_kept() {
    let mut cs: Vec<NoteCandidate> =
        (0..25).map(|i| cand(&format!("/v/c{}.md", i), &format!("c{}.md", i), "about zebras")).collect();
    cs.push(cand("/v/zebra.md", "zebra.md", ""));
    let rs = search_notes("/v", "zebra", &cs);
    assert_eq!(rs.len(), 20);
    assert_eq!(rs[0].path, "zebra.md");
    assert_eq!(rs[1].path, "c0.md");
    assert_eq!(rs[19].path, "c18.md");
}

#[test]
fn every_match_is_returned_below_twenty() {
    let cs = vec![
        cand("/v/a.md", "a.md", "x marks"),
        cand("/v/x.md", "x.md", ""),
        cand("/v/b.md", "b.md", "no"),
        cand("/v/c.md", "c.md", "box"),
    ];
    let rs = search_notes("/v", "X", &cs);
    let paths: Vec<String> = rs.iter().map(|r| r.path.clone()).collect();
    assert_eq!(paths, vec!["x.md", "a.md", "c.md"]);
}

#[test]
fn snippet_bounds_move_back_to_character_boundaries() {
    let content = format!("x{}", "\u{20ac}".repeat(40));
    let rs = search_notes("/v", "x", &vec![cand("/v/a.md", "a.md", &content)]);
    assert_eq!(rs.len(), 1);
    assert_eq!(rs[0].path, "a.md");
    assert!(rs[0].snippet.starts_with('x'));
    assert_eq!(rs[0].snippet, format!("x{}\u{2026}", "\u{20ac}".repeat(26)));
}

#[test]
fn the_snippet_window_is_taken_at_the_lowercased_byte_position() {
    // 'ẞ' takes 3 bytes, its lowercase form 2: the match lies at byte 60 of
    // the lowercased text; the window [20, 91) is taken in the text and its
    // start moves back to the boundary at byte 18.
    let content = format!("{}x", "\u{1e9e}".repeat(30));
    let rs = search_notes("/v", "x", &vec![cand("/v/n.md", "n.md", &content)]);
    assert_eq!(rs.len(), 1);
    assert_eq!(rs[0].snippet, format!("\u{2026}{}x", "\u{1e9e}".repeat(24)));
}

#[test]
fn a_window_beyond_the_text_gives_an_empty_cut_snippet() {
    // 'İ' takes 2 bytes, its lowercase form 3: the match lies at byte 180 of
    // the lowercased text, past the 121 bytes of the text.
    let content = format!("{}x", "\u{130}".repeat(60));
    let rs = search_notes("/v", "x", &vec![cand("/v/n.md", "n.md", &content)]);
    assert_eq!(rs.len(), 1);
    assert_eq!(rs[0].snippet, "\u{2026}");
}

#[test]
fn an_odd_window_start_moves_back_to_a_character_boundary() {
    // The match is at byte 62; byte 22 falls inside an 'é', so the snippet
    // starts at byte 21.
    let content = format!("a{}yx", "\u{e9}".repeat(30));
    let rs = search_notes("/v", "x", &vec![cand("/v/n.md", "n.md", &content)]);
    assert_eq!(rs[0].snippet, format!("\u{2026}{}yx", "\u{e9}".repeat(20)));
}

#[test]
fn a_vault_inside_a_dot_directory_is_searched() {
    let cs = vec![
        cand("/home/u/.notes/a.md", "a.md", "hello"),
        cand("/home/u/.notes/.trash/b.md", "b.md", "hello"),
    ];
    let rs = search_notes("/home/u/.notes", "hello", &cs);
    assert_eq!(summary(&rs), vec![("a.md".to_string(), "a.md".to_string(), "hello".to_string())]);
}

#[test]
fn a_candidate_is_classified_from_its_lowercased_texts() {
    let c = cand("/v/Notes.md", "Notes.md", "Some Text");
    let (is_name, r) = classify_candidate("/v", "note", &c, "notes.md", "some text").unwrap();
    assert!(is_name);
    assert_eq!(r.snippet, "Notes.md");
    let (is_name, r) = classify_candidate("/v", "text", &c, "notes.md", "some text").unwrap();
    assert!(!is_name);
    assert_eq!(r.snippet, "Some Text");
    assert!(classify_candidate("/v", "zzz", &c, "notes.md", "some text").is_none());
    let txt = cand("/v/a.txt", "a.txt", "text");
    assert!(classify_candidate("/v", "text", &txt, "a.txt", "text").is_none());
}

#[test]
fn content_is_needed_only_without_a_name_match() {
    assert!(!needs_content("CAT", "cats.md"));
    assert!(needs_content("dog", "cats.md"));
}
