//! Search over the notes of the vault: a note matches by file name (these
//! come first) or by content (with a snippet around the first match); at
//! most 20 results.
use vstd::prelude::*;
use vstd::utf8::{decode_utf8, encode_utf8, is_char_boundary};
use vstd::string::StringExecFns;
use vstd::string::StringSliceAdditionalSpecFns;
use crate::path::{is_note, is_note_path, relative_path, relative_to};
use crate::text::{find_bytes, first_match, lowercase, to_lowercase};

verus! {

/// One search result.
pub struct SearchResult {
    pub path: String,
    pub name: String,
    pub snippet: String,
}

pub open spec fn result_view(r: SearchResult) -> (Seq<char>, Seq<char>, Seq<char>) {
    (r.path@, r.name@, r.snippet@)
}

pub open spec fn results_view(v: Seq<SearchResult>) -> Seq<(Seq<char>, Seq<char>, Seq<char>)> {
    v.map_values(|r: SearchResult| result_view(r))
}

/// A file met while walking the vault: its path, its file name, whether it
/// is a regular file, and its text (which is only looked at when the file
/// name does not match).
pub struct NoteCandidate {
    pub path: String,
    pub file_name: String,
    pub is_file: bool,
    pub content: String,
}

pub open spec fn candidate_view(c: NoteCandidate) -> (Seq<char>, Seq<char>, bool, Seq<char>) {
    (c.path@, c.file_name@, c.is_file, c.content@)
}

pub open spec fn candidates_view(v: Seq<NoteCandidate>) -> Seq<(Seq<char>, Seq<char>, bool, Seq<char>)> {
    v.map_values(|c: NoteCandidate| candidate_view(c))
}

/// The most results a search returns.
pub const MAX_RESULTS: usize = 20;

/// The ellipsis that marks a cut snippet.
pub open spec fn ellipsis() -> Seq<char> {
    seq!['\u{2026}']
}

/// What one candidate contributes.
pub enum Outcome {
    /// Not a note, or no match.
    Skip,
    /// A file name match.
    Name((Seq<char>, Seq<char>, Seq<char>)),
    /// A content match, with its snippet.
    Content((Seq<char>, Seq<char>, Seq<char>)),
}

/// The byte window of the snippet around a match at byte `pos` of length
/// `qlen` in a text of `len` bytes: 40 bytes before, 80 after, kept inside
/// the text.
pub open spec fn window(pos: int, qlen: int, len: int) -> (int, int) {
    let start = if pos >= 40 { pos - 40 } else { 0 };
    let end = if pos + qlen + 80 <= len { pos + qlen + 80 } else { len };
    (if start <= len { start } else { len }, end)
}

/// The last character boundary of `bytes` at or before `k`.
pub open spec fn floor_boundary(bytes: Seq<u8>, k: int) -> int
    decreases k,
{
    if k <= 0 {
        0
    } else if is_char_boundary(bytes, k) {
        k
    } else {
        floor_boundary(bytes, k - 1)
    }
}

/// The snippet of `content` for the byte window (start, end): the text in
/// the window, with an ellipsis on each side where text was cut.
pub open spec fn snippet_spec(content: Seq<char>, start: int, end: int) -> Seq<char> {
    let bytes = encode_utf8(content);
    (if start > 0 { ellipsis() } else { Seq::empty() }) + decode_utf8(bytes.subrange(start, end)) + (if end < bytes.len() {
        ellipsis()
    } else {
        Seq::empty()
    })
}

/// The snippet around a match at byte `pos` of the lowercased text, of
/// length `qlen`: the window of `window` taken at that byte position of the
/// text itself, each end moved back to the nearest character boundary.
pub open spec fn snippet_at(content: Seq<char>, pos: int, qlen: int) -> Seq<char> {
    let bytes = encode_utf8(content);
    let (start, end) = window(pos, qlen, bytes.len() as int);
    snippet_spec(content, floor_boundary(bytes, start), floor_boundary(bytes, end))
}

/// What a candidate contributes to a search for the lowercased query `q`
/// in the vault at `root`, given its lowercased file name and text. Only the
/// path below the root decides whether a file is a note.
#[verifier::opaque]
pub open spec fn outcome_with(
    root: Seq<char>,
    q: Seq<char>,
    c: (Seq<char>, Seq<char>, bool, Seq<char>),
    name_lower: Seq<char>,
    content_lower: Seq<char>,
) -> Outcome {
    let (path, name, is_file, content) = c;
    let rel = relative_to(path, root);
    if !(is_file && is_note_path(rel)) {
        Outcome::Skip
    } else if first_match(encode_utf8(name_lower), encode_utf8(q)) is Some {
        Outcome::Name((rel, name, name))
    } else {
        match first_match(encode_utf8(content_lower), encode_utf8(q)) {
            None => Outcome::Skip,
            Some(pos) => Outcome::Content((rel, name, snippet_at(content, pos, encode_utf8(q).len() as int))),
        }
    }
}

/// What a candidate contributes to a search for the lowercased query `q`.
pub open spec fn outcome(root: Seq<char>, q: Seq<char>, c: (Seq<char>, Seq<char>, bool, Seq<char>)) -> Outcome {
    outcome_with(root, q, c, lowercase(c.1), lowercase(c.3))
}

/// The first 20 items of `s` (all of them when there are fewer).
pub open spec fn first_twenty(s: Seq<(Seq<char>, Seq<char>, Seq<char>)>) -> Seq<(Seq<char>, Seq<char>, Seq<char>)> {
    if s.len() <= 20 {
        s
    } else {
        s.take(20)
    }
}

/// The results of going through `cs`, with the file name matches `names`
/// (the newest first) and the content matches `contents` (in walk order)
/// found so far. The walk ends once 20 file names have matched; the results
/// are the file name matches, then the content matches, at most 20.
pub open spec fn search_from(
    root: Seq<char>,
    q: Seq<char>,
    cs: Seq<(Seq<char>, Seq<char>, bool, Seq<char>)>,
    names: Seq<(Seq<char>, Seq<char>, Seq<char>)>,
    contents: Seq<(Seq<char>, Seq<char>, Seq<char>)>,
) -> Seq<(Seq<char>, Seq<char>, Seq<char>)>
    decreases cs.len(),
{
    if cs.len() == 0 || names.len() >= 20 {
        first_twenty(names + contents)
    } else {
        match outcome(root, q, cs[0]) {
            Outcome::Skip => search_from(root, q, cs.drop_first(), names, contents),
            Outcome::Name(r) => search_from(root, q, cs.drop_first(), seq![r] + names, contents),
            Outcome::Content(r) => search_from(root, q, cs.drop_first(), names, contents.push(r)),
        }
    }
}

proof fn lemma_floor_boundary(bytes: Seq<u8>, k: int)
    requires
        vstd::utf8::valid_utf8(bytes),
        k <= bytes.len(),
    ensures
        0 <= floor_boundary(bytes, k),
        k >= 0 ==> floor_boundary(bytes, k) <= k,
        is_char_boundary(bytes, floor_boundary(bytes, k)),
    decreases k,
{
    if k > 0 && !is_char_boundary(bytes, k) {
        lemma_floor_boundary(bytes, k - 1);
    }
}

proof fn lemma_floor_boundary_monotone(bytes: Seq<u8>, a: int, b: int)
    requires
        vstd::utf8::valid_utf8(bytes),
        a <= b <= bytes.len(),
    ensures
        floor_boundary(bytes, a) <= floor_boundary(bytes, b),
    decreases b,
{
    lemma_floor_boundary(bytes, a);
    if b > 0 && !is_char_boundary(bytes, b) && a < b {
        lemma_floor_boundary_monotone(bytes, a, b - 1);
    }
}

/// The last character boundary of `s` at or before byte `k`.
fn floor_char_boundary(s: &str, k: usize) -> (r: usize)
    requires
        k <= s.spec_bytes().len(),
    ensures
        r as int == floor_boundary(s.spec_bytes(), k as int),
{
    let ghost bytes = s.spec_bytes();
    let mut j = k;
    while j > 0 && !s.is_char_boundary(j)
        invariant
            j <= k,
            bytes == s.spec_bytes(),
            floor_boundary(bytes, j as int) == floor_boundary(bytes, k as int),
        decreases j,
    {
        j = j - 1;
    }
    j
}

/// The snippet of `content` for the byte window (start, end).
pub fn content_snippet(content: &str, start: usize, end: usize) -> (r: String)
    requires
        start <= end <= content.spec_bytes().len(),
        is_char_boundary(content.spec_bytes(), start as int),
        is_char_boundary(content.spec_bytes(), end as int),
    ensures
        r@ == snippet_spec(content@, start as int, end as int),
{
    let ghost bytes = content.spec_bytes();
    proof {
        vstd::utf8::encode_utf8_valid_utf8(content@);
        vstd::utf8::valid_utf8_split(bytes, start as int);
    }
    let (_, rest) = content.split_at(start);
    let ghost rb = rest.spec_bytes();
    assert(rb =~= bytes.subrange(start as int, bytes.len() as int));
    proof {
        let k = end - start;
        if k < rb.len() {
            vstd::utf8::is_char_boundary_iff_not_is_continuation_byte(rb, k as int);
            vstd::utf8::is_char_boundary_iff_not_is_continuation_byte(bytes, end as int);
            assert(rb[k as int] == bytes[end as int]);
        } else {
            vstd::utf8::is_char_boundary_start_end_of_seq(rb);
        }
    }
    let (mid, _) = rest.split_at(end - start);
    assert(mid.spec_bytes() =~= bytes.subrange(start as int, end as int));
    proof {
        vstd::utf8::encode_utf8_decode_utf8(mid@);
    }
    let mut out = String::new();
    let dots = "\u{2026}";
    proof {
        reveal_strlit("\u{2026}");
    }
    if start > 0 {
        out.append(dots);
    }
    out.append(mid);
    if end < content.as_bytes().len() {
        out.append(dots);
    }
    assert(mid@ == decode_utf8(bytes.subrange(start as int, end as int)));
    assert(dots@ == ellipsis());
    assert(out@ =~= snippet_spec(content@, start as int, end as int));
    out
}

/// Whether `hay` contains `needle` (both as UTF-8 bytes).
fn contains_text(hay: &str, needle: &str) -> (r: Option<usize>)
    ensures
        match first_match(encode_utf8(hay@), encode_utf8(needle@)) {
            Some(i) => r is Some && r->0 as int == i,
            None => r is None,
        },
{
    find_bytes(hay.as_bytes(), needle.as_bytes())
}

/// Whether the content of a note named `file_name` is needed for a search
/// for `query`, that is, whether its file name does not match.
pub fn needs_content(query: &str, file_name: &str) -> (r: bool)
    ensures
        r == (first_match(encode_utf8(lowercase(file_name@)), encode_utf8(lowercase(query@))) is None),
{
    let q = to_lowercase(query);
    let nl = to_lowercase(file_name);
    contains_text(nl.as_str(), q.as_str()).is_none()
}

/// A copy of a search result.
fn copy_result(r: &SearchResult) -> (c: SearchResult)
    ensures
        result_view(c) == result_view(*r),
{
    SearchResult { path: r.path.clone(), name: r.name.clone(), snippet: r.snippet.clone() }
}

/// What the candidate `c` contributes to a search for the lowercased query
/// `q` in the vault at `root`, given its lowercased file name `name_lower`
/// and text `content_lower` (see `outcome_with`): `None` for no result,
/// otherwise whether it is a file name match, and the result.
pub fn classify_candidate(
    root: &str,
    q: &str,
    c: &NoteCandidate,
    name_lower: &str,
    content_lower: &str,
) -> (r: Option<(bool, SearchResult)>)
    ensures
        match outcome_with(root@, q@, candidate_view(*c), name_lower@, content_lower@) {
            Outcome::Skip => r is None,
            Outcome::Name(v) => r matches Some((is_name, sr)) && is_name && result_view(sr) == v,
            Outcome::Content(v) => r matches Some((is_name, sr)) && !is_name && result_view(sr) == v,
        },
        r matches Some((_, sr)) ==> sr.path@ == relative_to(c.path@, root@) && sr.name@ == c.file_name@,
{
    reveal(outcome_with);
    let ghost cv = candidate_view(*c);
    let rel = relative_path(c.path.as_str(), root);
    if !(c.is_file && is_note(rel.as_str())) {
        return None;
    }
    if contains_text(name_lower, q).is_some() {
        return Some((true, SearchResult { path: rel, name: c.file_name.clone(), snippet: c.file_name.clone() }));
    }
    match contains_text(content_lower, q) {
        None => None,
        Some(pos) => {
            let content = c.content.as_str();
            let ghost bytes = content.spec_bytes();
            let clen = content.as_bytes().len();
            let qlen = q.as_bytes().len();
            let back = if pos >= 40 { pos - 40 } else { 0 };
            let start = if back <= clen { back } else { clen };
            let reach = pos.saturating_add(qlen).saturating_add(80);
            let end = if reach <= clen { reach } else { clen };
            let ghost w = window(pos as int, qlen as int, clen as int);
            assert(qlen as int == encode_utf8(q@).len());
            assert(clen as int == encode_utf8(c.content@).len());
            assert(w.0 == start as int);
            assert(w.1 == end as int);
            proof {
                vstd::utf8::encode_utf8_valid_utf8(c.content@);
                lemma_floor_boundary(bytes, start as int);
                lemma_floor_boundary(bytes, end as int);
                lemma_floor_boundary_monotone(bytes, start as int, end as int);
            }
            let s = floor_char_boundary(content, start);
            let e = floor_char_boundary(content, end);
            let snippet = content_snippet(content, s, e);
            assert(snippet@ == snippet_at(c.content@, pos as int, encode_utf8(q@).len() as int));
            Some((false, SearchResult { path: rel, name: c.file_name.clone(), snippet }))
        },
    }
}

/// Searches the notes met while walking the vault at `vault_root` for
/// `query`, case-insensitively (both are lowercased). A note matches by its
/// file name, or else by its text, with a snippet around the first match.
/// File name matches come first, the newest first; content matches follow
/// in walk order; there are at most 20 results, and the walk ends once 20
/// file names have matched (see `search_from`).
pub fn search_notes(vault_root: &str, query: &str, candidates: &Vec<NoteCandidate>) -> (r: Vec<SearchResult>)
    ensures
        results_view(r@) == search_from(
            vault_root@,
            lowercase(query@),
            candidates_view(candidates@),
            Seq::empty(),
            Seq::empty(),
        ),
{
    let q = to_lowercase(query);
    let ghost qv = lowercase(query@);
    let ghost cv = candidates_view(candidates@);
    let mut names: Vec<SearchResult> = Vec::new();
    let mut contents: Vec<SearchResult> = Vec::new();
    let mut i: usize = 0;
    assert(cv.skip(0) =~= cv);
    assert(results_view(names@) =~= Seq::<(Seq<char>, Seq<char>, Seq<char>)>::empty());
    assert(results_view(contents@) =~= Seq::<(Seq<char>, Seq<char>, Seq<char>)>::empty());
    while i < candidates.len() && names.len() < MAX_RESULTS
        invariant
            i <= candidates.len(),
            q@ == qv,
            qv == lowercase(query@),
            cv == candidates_view(candidates@),
            names@.len() <= 20,
            search_from(vault_root@, qv, cv, Seq::empty(), Seq::empty()) == search_from(
                vault_root@,
                qv,
                cv.skip(i as int),
                results_view(names@),
                results_view(contents@),
            ),
        decreases candidates.len() - i,
    {
        let ghost rest = cv.skip(i as int);
        assert(rest[0] == candidate_view(candidates@[i as int]));
        assert(rest.drop_first() =~= cv.skip(i + 1));
        let ghost nb = results_view(names@);
        let ghost cb = results_view(contents@);
        let c = &candidates[i];
        let nl = to_lowercase(c.file_name.as_str());
        let cl = to_lowercase(c.content.as_str());
        match classify_candidate(vault_root, q.as_str(), c, nl.as_str(), cl.as_str()) {
            None => {},
            Some((is_name, sr)) => {
                let ghost v = result_view(sr);
                if is_name {
                    names.insert(0, sr);
                    assert(results_view(names@) =~= seq![v] + nb);
                } else {
                    contents.push(sr);
                    assert(results_view(contents@) =~= cb.push(v));
                }
            },
        }
        i = i + 1;
    }
    let ghost all = results_view(names@) + results_view(contents@);
    assert(search_from(vault_root@, qv, cv, Seq::empty(), Seq::empty()) == first_twenty(all));
    let ghost n = names@.len();
    let mut out = names;
    let mut j: usize = 0;
    assert(all.take(n as int) =~= results_view(out@));
    while out.len() < MAX_RESULTS && j < contents.len()
        invariant
            j <= contents.len(),
            out@.len() == n + j,
            n + j <= 20,
            all == results_view(out@).take(n as int) + results_view(contents@),
            results_view(out@) == all.take(n + j),
        decreases contents.len() - j,
    {
        let ghost before = results_view(out@);
        let sr = copy_result(&contents[j]);
        out.push(sr);
        assert(results_view(out@) =~= before.push(result_view(contents@[j as int])));
        assert(all[n + j] == results_view(contents@)[j as int]);
        assert(results_view(out@) =~= all.take(n + j + 1));
        j = j + 1;
    }
    assert(all.len() == n + contents@.len());
    if out.len() >= MAX_RESULTS {
        proof {
            assert(all.take(20) =~= all.take(n + j));
            if all.len() == 20 {
                assert(all.take(20) =~= all);
            }
        }
    } else {
        assert(all.take(n + j) =~= all);
    }
    out
}

/// A search never returns more than 20 results.
pub proof fn law_search_returns_at_most_20(
    root: Seq<char>,
    q: Seq<char>,
    cs: Seq<(Seq<char>, Seq<char>, bool, Seq<char>)>,
    names: Seq<(Seq<char>, Seq<char>, Seq<char>)>,
    contents: Seq<(Seq<char>, Seq<char>, Seq<char>)>,
)
    ensures
        search_from(root, q, cs, names, contents).len() <= 20,
    decreases cs.len(),
{
    if cs.len() > 0 && names.len() < 20 {
        match outcome(root, q, cs[0]) {
            Outcome::Skip => law_search_returns_at_most_20(root, q, cs.drop_first(), names, contents),
            Outcome::Name(r) => law_search_returns_at_most_20(root, q, cs.drop_first(), seq![r] + names, contents),
            Outcome::Content(r) => law_search_returns_at_most_20(root, q, cs.drop_first(), names, contents.push(r)),
        }
    }
}

/// The first `k` file name matches among `cs`, the newest first.
pub open spec fn first_names(
    root: Seq<char>,
    q: Seq<char>,
    cs: Seq<(Seq<char>, Seq<char>, bool, Seq<char>)>,
    k: int,
) -> Seq<(Seq<char>, Seq<char>, Seq<char>)>
    decreases cs.len(),
{
    if cs.len() == 0 || k <= 0 {
        Seq::empty()
    } else {
        match outcome(root, q, cs[0]) {
            Outcome::Name(r) => first_names(root, q, cs.drop_first(), k - 1) + seq![r],
            _ => first_names(root, q, cs.drop_first(), k),
        }
    }
}

/// The number of file name matches among `cs`.
pub open spec fn name_count(root: Seq<char>, q: Seq<char>, cs: Seq<(Seq<char>, Seq<char>, bool, Seq<char>)>) -> nat
    decreases cs.len(),
{
    if cs.len() == 0 {
        0
    } else {
        name_count(root, q, cs.drop_first()) + if outcome(root, q, cs[0]) is Name {
            1nat
        } else {
            0nat
        }
    }
}

/// The content matches among `cs`, in walk order.
pub open spec fn content_hits(
    root: Seq<char>,
    q: Seq<char>,
    cs: Seq<(Seq<char>, Seq<char>, bool, Seq<char>)>,
) -> Seq<(Seq<char>, Seq<char>, Seq<char>)>
    decreases cs.len(),
{
    if cs.len() == 0 {
        Seq::empty()
    } else {
        match outcome(root, q, cs[0]) {
            Outcome::Content(r) => seq![r] + content_hits(root, q, cs.drop_first()),
            _ => content_hits(root, q, cs.drop_first()),
        }
    }
}

proof fn lemma_first_names_len(
    root: Seq<char>,
    q: Seq<char>,
    cs: Seq<(Seq<char>, Seq<char>, bool, Seq<char>)>,
    k: int,
)
    requires
        k >= 0,
    ensures
        first_names(root, q, cs, k).len() == if name_count(root, q, cs) <= k {
            name_count(root, q, cs) as int
        } else {
            k
        },
    decreases cs.len(),
{
    if cs.len() > 0 && k > 0 {
        match outcome(root, q, cs[0]) {
            Outcome::Name(r) => lemma_first_names_len(root, q, cs.drop_first(), k - 1),
            _ => lemma_first_names_len(root, q, cs.drop_first(), k),
        }
    } else if cs.len() > 0 {
        assert(k == 0);
    }
}

proof fn lemma_search_from_hits(
    root: Seq<char>,
    q: Seq<char>,
    cs: Seq<(Seq<char>, Seq<char>, bool, Seq<char>)>,
    names: Seq<(Seq<char>, Seq<char>, Seq<char>)>,
    contents: Seq<(Seq<char>, Seq<char>, Seq<char>)>,
)
    requires
        names.len() <= 20,
    ensures
        search_from(root, q, cs, names, contents) == first_twenty(
            first_names(root, q, cs, 20 - names.len()) + names + contents + content_hits(root, q, cs),
        ),
    decreases cs.len(),
{
    let rest = cs.drop_first();
    if names.len() == 20 {
        let all = first_names(root, q, cs, 0) + names + contents + content_hits(root, q, cs);
        assert(first_names(root, q, cs, 0) =~= Seq::<(Seq<char>, Seq<char>, Seq<char>)>::empty());
        assert(all.take(20) =~= names);
        assert((names + contents).take(20) =~= names);
        if all.len() == 20 {
            assert(all =~= all.take(20));
        }
        if (names + contents).len() == 20 {
            assert(names + contents =~= (names + contents).take(20));
        }
    } else if cs.len() == 0 {
        assert(first_names(root, q, cs, 20 - names.len()) + names + contents + content_hits(root, q, cs) =~= names
            + contents);
    } else {
        match outcome(root, q, cs[0]) {
            Outcome::Skip => {
                lemma_search_from_hits(root, q, rest, names, contents);
            },
            Outcome::Name(r) => {
                lemma_search_from_hits(root, q, rest, seq![r] + names, contents);
                assert(first_names(root, q, rest, 20 - (seq![r] + names).len()) + (seq![r] + names) + contents
                    + content_hits(root, q, rest) =~= first_names(root, q, cs, 20 - names.len()) + names + contents
                    + content_hits(root, q, cs));
            },
            Outcome::Content(r) => {
                lemma_search_from_hits(root, q, rest, names, contents.push(r));
                assert(first_names(root, q, rest, 20 - names.len()) + names + contents.push(r) + content_hits(
                    root,
                    q,
                    rest,
                ) =~= first_names(root, q, cs, 20 - names.len()) + names + contents + content_hits(root, q, cs));
            },
        }
    }
}

/// File name matches come first and are never crowded out: a search gives
/// the first 20 file name matches (the newest first), then the content
/// matches in walk order, at most 20 results in all; so it holds as many
/// file name matches as there are, up to 20.
pub proof fn law_file_name_matches_come_first(
    root: Seq<char>,
    q: Seq<char>,
    cs: Seq<(Seq<char>, Seq<char>, bool, Seq<char>)>,
)
    ensures
        search_from(root, q, cs, Seq::empty(), Seq::empty()) == first_twenty(
            first_names(root, q, cs, 20) + content_hits(root, q, cs),
        ),
        first_names(root, q, cs, 20).len() == if name_count(root, q, cs) <= 20 {
            name_count(root, q, cs) as int
        } else {
            20
        },
{
    let e = Seq::<(Seq<char>, Seq<char>, Seq<char>)>::empty();
    lemma_search_from_hits(root, q, cs, e, e);
    assert(first_names(root, q, cs, 20) + e + e + content_hits(root, q, cs) =~= first_names(root, q, cs, 20)
        + content_hits(root, q, cs));
    lemma_first_names_len(root, q, cs, 20);
}


/// Every search result names its note by the note's path relative to the
/// vault root, whether the file name or the text matched; a file name match
/// shows the file name as its snippet, and every result carries the file
/// name.
pub proof fn law_results_carry_the_relative_path(
    root: Seq<char>,
    q: Seq<char>,
    c: (Seq<char>, Seq<char>, bool, Seq<char>),
    name_lower: Seq<char>,
    content_lower: Seq<char>,
)
    ensures
        outcome_with(root, q, c, name_lower, content_lower) matches Outcome::Name(v) ==> v.0 == relative_to(c.0, root)
            && v.1 == c.1 && v.2 == c.1,
        outcome_with(root, q, c, name_lower, content_lower) matches Outcome::Content(v) ==> v.0 == relative_to(
            c.0,
            root,
        ) && v.1 == c.1,
        !(outcome_with(root, q, c, name_lower, content_lower) is Skip) ==> c.2 && is_note_path(relative_to(c.0, root)),
{
    reveal(outcome_with);
}

} // verus!
