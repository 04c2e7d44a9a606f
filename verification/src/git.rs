//! The decisions taken around the vault's git repository: which commits make
//! up a note's history, what gets staged and committed, how a commit hash
//! and a stored note are read, how a sync proceeds, and which credentials
//! are tried. The repository operations themselves are performed by the caller.
use vstd::prelude::*;
use vstd::utf8::{decode_utf8, encode_utf8, valid_utf8};
use vstd::string::StrSliceExecFns;
use vstd::string::StringExecFns;
use chrono::TimeZone;
use crate::path::{join_path, join_spec};

verus! {

/// The outcome of a sync.
pub struct GitResult {
    pub success: bool,
    pub output: String,
}

/// One entry of a note's history.
pub struct CommitInfo {
    pub hash: String,
    pub message: String,
    pub timestamp: String,
    pub author: String,
}

pub open spec fn commit_info_view(c: CommitInfo) -> (Seq<char>, Seq<char>, Seq<char>, Seq<char>) {
    (c.hash@, c.message@, c.timestamp@, c.author@)
}

pub open spec fn commit_infos_view(v: Seq<CommitInfo>) -> Seq<(Seq<char>, Seq<char>, Seq<char>, Seq<char>)> {
    v.map_values(|c: CommitInfo| commit_info_view(c))
}

pub open spec fn opt_text(o: Option<String>) -> Option<Seq<char>> {
    match o {
        Some(s) => Some(s@),
        None => None,
    }
}

/// What `chrono::Utc.timestamp_opt(seconds, 0).single()` formatted with
/// `DateTime::to_rfc3339` gives: `None` when the instant is out of range.
pub uninterp spec fn utc_rfc3339(seconds: i64) -> Option<Seq<char>>;

/// Calls `chrono::Utc.timestamp_opt(seconds, 0).single()` and formats the
/// instant with `to_rfc3339`; the result is named `utc_rfc3339`.
#[verifier::external_body]
fn format_utc_rfc3339(seconds: i64) -> (r: Option<String>)
    ensures
        opt_text(r) == utc_rfc3339(seconds),
{
    chrono::Utc.timestamp_opt(seconds, 0).single().map(|dt| dt.to_rfc3339())
}

/// A commit met while walking the history from HEAD, newest first: its
/// hash, its summary and author name (when readable), its time in seconds
/// since the epoch, and whether it changed the note.
pub struct CommitRecord {
    pub hash: String,
    pub summary: Option<String>,
    pub author: Option<String>,
    pub seconds: i64,
    pub touches: bool,
}

pub open spec fn or_empty(o: Option<Seq<char>>) -> Seq<char> {
    match o {
        Some(s) => s,
        None => Seq::empty(),
    }
}

/// The history entry of a commit: missing texts become empty.
pub open spec fn commit_entry(c: CommitRecord) -> (Seq<char>, Seq<char>, Seq<char>, Seq<char>) {
    (c.hash@, or_empty(opt_text(c.summary)), or_empty(utc_rfc3339(c.seconds)), or_empty(opt_text(c.author)))
}

/// The most entries of a note's history.
pub const HISTORY_LIMIT: usize = 50;

/// The history of a note: the entries of the commits that changed it, in
/// walk order, at most 50.
pub open spec fn history_of(commits: Seq<CommitRecord>) -> Seq<(Seq<char>, Seq<char>, Seq<char>, Seq<char>)>
    decreases commits.len(),
{
    if commits.len() == 0 {
        Seq::empty()
    } else {
        let prev = history_of(commits.drop_last());
        if prev.len() < 50 && commits.last().touches {
            prev.push(commit_entry(commits.last()))
        } else {
            prev
        }
    }
}

fn text_or_empty(o: &Option<String>) -> (r: String)
    ensures
        r@ == or_empty(opt_text(*o)),
{
    match o {
        Some(s) => s.clone(),
        None => String::new(),
    }
}

/// The history of a note, collected while its commits are walked.
pub struct NoteHistory {
    entries: Vec<CommitInfo>,
    seen: Ghost<Seq<CommitRecord>>,
}

impl NoteHistory {
    /// The commits offered so far.
    pub closed spec fn seen(&self) -> Seq<CommitRecord> {
        self.seen@
    }

    /// The entries collected so far.
    pub closed spec fn entries(&self) -> Seq<(Seq<char>, Seq<char>, Seq<char>, Seq<char>)> {
        commit_infos_view(self.entries@)
    }

    /// The entries are the history of the commits offered so far.
    #[verifier::type_invariant]
    pub closed spec fn wf(&self) -> bool {
        self.entries() == history_of(self.seen@)
    }

    /// An empty history.
    pub fn new() -> (r: Self)
        ensures
            r.seen() == Seq::<CommitRecord>::empty(),
    {
        let entries: Vec<CommitInfo> = Vec::new();
        assert(commit_infos_view(entries@) =~= Seq::<(Seq<char>, Seq<char>, Seq<char>, Seq<char>)>::empty());
        NoteHistory { entries, seen: Ghost(Seq::empty()) }
    }

    /// Whether 50 entries were collected, so that the walk stops.
    pub fn is_full(&self) -> (r: bool)
        ensures
            r == (history_of(self.seen()).len() >= 50),
    {
        proof {
            use_type_invariant(self);
        }
        self.entries.len() >= HISTORY_LIMIT
    }

    /// Takes the next commit of the walk into account.
    pub fn offer(&mut self, commit: CommitRecord)
        ensures
            final(self).seen() == old(self).seen().push(commit),
    {
        proof {
            use_type_invariant(&*self);
        }
        let mut taken = NoteHistory::new();
        std::mem::swap(&mut taken, self);
        let NoteHistory { mut entries, seen } = taken;
        let ghost before = seen@;
        let ghost prev = commit_infos_view(entries@);
        assert(prev == history_of(before));
        if entries.len() < HISTORY_LIMIT && commit.touches {
            let timestamp = match format_utc_rfc3339(commit.seconds) {
                Some(t) => t,
                None => String::new(),
            };
            let info = CommitInfo {
                hash: commit.hash.clone(),
                message: text_or_empty(&commit.summary),
                timestamp,
                author: text_or_empty(&commit.author),
            };
            entries.push(info);
            assert(commit_infos_view(entries@) =~= prev.push(commit_entry(commit)));
        }
        let ghost after = before.push(commit);
        assert(after.drop_last() =~= before);
        *self = NoteHistory { entries, seen: Ghost(after) };
    }

    /// The entries collected.
    pub fn into_entries(self) -> (r: Vec<CommitInfo>)
        ensures
            commit_infos_view(r@) == history_of(self.seen()),
    {
        proof {
            use_type_invariant(&self);
        }
        self.entries
    }
}

proof fn lemma_history_full_stays(commits: Seq<CommitRecord>, more: Seq<CommitRecord>)
    requires
        history_of(commits).len() >= 50,
    ensures
        history_of(commits + more) == history_of(commits),
    decreases more.len(),
{
    if more.len() == 0 {
        assert(commits + more =~= commits);
    } else {
        lemma_history_full_stays(commits, more.drop_last());
        assert((commits + more).drop_last() =~= commits + more.drop_last());
    }
}

/// The history of a note from the commits of a walk from HEAD, newest
/// first: the commits that changed the note, at most 50 (the walk stops
/// there).
pub fn get_note_history(commits: Vec<CommitRecord>) -> (r: Vec<CommitInfo>)
    ensures
        commit_infos_view(r@) == history_of(commits@),
{
    let mut h = NoteHistory::new();
    let ghost all = commits@;
    let mut rest = commits;
    let mut i: usize = 0;
    let n = rest.len();
    assert(all.take(0) =~= Seq::<CommitRecord>::empty());
    assert(all.skip(0) =~= all);
    while i < n
        invariant
            n == all.len(),
            all == commits@,
            i <= n,
            rest@ == all.skip(i as int),
            h.seen() == all.take(i as int),
        decreases n - i,
    {
        if h.is_full() {
            proof {
                lemma_history_full_stays(all.take(i as int), all.skip(i as int));
                assert(all.take(i as int) + all.skip(i as int) =~= all);
            }
            return h.into_entries();
        }
        let c = rest.remove(0);
        assert(c == all[i as int]);
        assert(rest@ =~= all.skip(i + 1));
        h.offer(c);
        assert(all.take(i + 1) =~= all.take(i as int).push(all[i as int]));
        i = i + 1;
    }
    assert(all.take(n as int) =~= all);
    h.into_entries()
}

/// The newest commit of the walk, when it changed the note, is the first
/// entry of the note's history, with its summary as the message (after an
/// automatic commit, "Update <path>").
pub proof fn law_newest_change_comes_first(commits: Seq<CommitRecord>)
    requires
        commits.len() > 0,
        commits[0].touches,
    ensures
        history_of(commits).len() > 0,
        history_of(commits)[0] == commit_entry(commits[0]),
        history_of(commits)[0].0 == commits[0].hash@,
    decreases commits.len(),
{
    if commits.len() > 1 {
        assert(commits.drop_last()[0] == commits[0]);
        law_newest_change_comes_first(commits.drop_last());
        let prev = history_of(commits.drop_last());
        assert(prev.push(commit_entry(commits.last()))[0] == prev[0]);
    } else {
        assert(commits.drop_last() =~= Seq::<CommitRecord>::empty());
        assert(history_of(commits.drop_last()).len() == 0);
        assert(commits.last() == commits[0]);
        assert(history_of(commits) =~= seq![commit_entry(commits[0])]);
    }
}

/// A note's history never has more than 50 entries.
pub proof fn law_history_at_most_50(commits: Seq<CommitRecord>)
    ensures
        history_of(commits).len() <= 50,
    decreases commits.len(),
{
    if commits.len() > 0 {
        law_history_at_most_50(commits.drop_last());
    }
}


/// A hexadecimal digit.
pub open spec fn is_hex_char(c: char) -> bool {
    ('0' <= c && c <= '9') || ('a' <= c && c <= 'f') || ('A' <= c && c <= 'F')
}

/// Why a text is not an object id: empty, longer than 40 bytes, or holding a
/// character that is not a hexadecimal digit; `None` when it is one.
pub open spec fn oid_problem(s: Seq<char>) -> Option<Seq<char>> {
    let n = encode_utf8_len(s);
    if n == 0 {
        Some("too short"@)
    } else if n > 40 {
        Some("too long"@)
    } else if exists|i: int| 0 <= i < s.len() && !is_hex_char(#[trigger] s[i]) {
        Some("contains invalid characters"@)
    } else {
        None
    }
}

pub open spec fn encode_utf8_len(s: Seq<char>) -> nat {
    vstd::utf8::encode_utf8(s).len()
}

/// The text of the error that `git2::Oid::from_str` reports for `s`.
pub open spec fn oid_error_text(problem: Seq<char>) -> Seq<char> {
    "unable to parse OID - "@ + problem + "; class=Invalid (3)"@
}

/// The value of a hexadecimal digit.
pub open spec fn hex_value(c: char) -> int {
    if '0' <= c && c <= '9' {
        c as int - '0' as int
    } else if 'a' <= c && c <= 'f' {
        c as int - 'a' as int + 10
    } else if 'A' <= c && c <= 'F' {
        c as int - 'A' as int + 10
    } else {
        0
    }
}

/// The `p`-th hexadecimal digit of `s`, zero past its end.
pub open spec fn nibble(s: Seq<char>, p: int) -> int {
    if 0 <= p < s.len() {
        hex_value(s[p])
    } else {
        0
    }
}

/// The 20 bytes of the object id written as the hexadecimal text `s`: each
/// byte from two digits, the high one first, missing digits taken as zero.
pub open spec fn oid_bytes(s: Seq<char>) -> Seq<u8> {
    Seq::new(20, |j: int| (nibble(s, 2 * j) * 16 + nibble(s, 2 * j + 1)) as u8)
}

/// The lowercase hexadecimal digit of `v` (0 to 15).
pub open spec fn hex_digit(v: int) -> char {
    seq!['0', '1', '2', '3', '4', '5', '6', '7', '8', '9', 'a', 'b', 'c', 'd', 'e', 'f'][v]
}

/// The lowercase hexadecimal text of the bytes `b`, two digits a byte, the
/// high one first (how git writes an object id).
pub open spec fn hex_text(b: Seq<u8>) -> Seq<char> {
    Seq::new(2 * b.len(), |p: int| if p % 2 == 0 { hex_digit(b[p / 2] as int / 16) } else { hex_digit(b[p / 2] as int % 16) })
}

proof fn lemma_hex_digit(v: int)
    requires
        0 <= v < 16,
    ensures
        is_hex_char(hex_digit(v)),
        hex_value(hex_digit(v)) == v,
        '\0' <= hex_digit(v) <= '\u{7f}',
{
}

/// An object id written as git writes it reads back as the same id: its
/// lowercase hexadecimal text is a valid hash, and its bytes are the id's.
pub proof fn law_written_id_reads_back(id: Seq<u8>)
    requires
        id.len() == 20,
    ensures
        oid_problem(hex_text(id)) is None,
        oid_bytes(hex_text(id)) == id,
{
    let t = hex_text(id);
    assert forall|p: int| 0 <= p < t.len() implies is_hex_char(#[trigger] t[p]) && '\0' <= t[p] <= '\u{7f}' by {
        lemma_hex_digit(id[p / 2] as int / 16);
        lemma_hex_digit(id[p / 2] as int % 16);
    }
    assert(vstd::utf8::is_ascii_chars(t));
    vstd::utf8::is_ascii_chars_encode_utf8(t);
    assert forall|j: int| 0 <= j < 20 implies #[trigger] oid_bytes(t)[j] == id[j] by {
        let b = id[j] as int;
        lemma_hex_digit(b / 16);
        lemma_hex_digit(b % 16);
        assert(t[2 * j] == hex_digit(b / 16));
        assert(t[2 * j + 1] == hex_digit(b % 16));
        assert((b / 16) * 16 + b % 16 == b) by (nonlinear_arith)
            requires
                0 <= b,
        ;
    }
    assert(oid_bytes(t) =~= id);
}

/// Calls `git2::Oid::from_str` and takes the id's bytes (`Oid::as_bytes`):
/// for a non-empty text of at most 40 bytes that are all hexadecimal
/// digits, the 20 bytes of `oid_bytes` (libgit2 decodes the digits in pairs
/// and leaves the missing ones zero); otherwise the error's text (the
/// libgit2 message for the first problem found, with the error class).
#[verifier::external_body]
fn oid_from_str(s: &str) -> (r: Result<Vec<u8>, String>)
    ensures
        match oid_problem(s@) {
            None => r is Ok && r->Ok_0@ == oid_bytes(s@),
            Some(p) => r is Err && r->Err_0@ == oid_error_text(p),
        },
{
    git2::Oid::from_str(s).map(|o| o.as_bytes().to_vec()).map_err(|e| e.to_string())
}

/// The bytes of the commit id named by `commit_hash`, or the error text
/// "Invalid commit hash '<hash>': <reason>".
pub fn parse_commit_hash(commit_hash: &str) -> (r: Result<Vec<u8>, String>)
    ensures
        match oid_problem(commit_hash@) {
            None => r is Ok && r->Ok_0@ == oid_bytes(commit_hash@),
            Some(p) => r is Err && r->Err_0@ == "Invalid commit hash '"@ + commit_hash@ + "': "@
                + oid_error_text(p),
        },
{
    match oid_from_str(commit_hash) {
        Ok(oid) => Ok(oid),
        Err(e) => {
            let mut m = "Invalid commit hash '".to_owned();
            m.append(commit_hash);
            m.append("': ");
            m.append(e.as_str());
            Err(m)
        },
    }
}

/// The first `n` characters of `s` (all of it when shorter).
pub open spec fn prefix_chars(s: Seq<char>, n: int) -> Seq<char> {
    if s.len() <= n {
        s
    } else {
        s.take(n)
    }
}

/// The error text when `rel_path` does not exist in a commit:
/// "'<path>' not found at commit <first 8 characters of the hash>".
pub fn missing_at_commit_message(rel_path: &str, commit_hash: &str) -> (r: String)
    ensures
        r@ == "'"@ + rel_path@ + "' not found at commit "@ + prefix_chars(commit_hash@, 8),
{
    let n = commit_hash.unicode_len();
    let short = if n <= 8 {
        commit_hash
    } else {
        commit_hash.substring_char(0, 8)
    };
    let mut m = "'".to_owned();
    m.append(rel_path);
    m.append("' not found at commit ");
    m.append(short);
    proof {
        if n > 8 {
            assert(commit_hash@.subrange(0, 8) =~= commit_hash@.take(8));
        }
    }
    m
}

/// What `std::str::from_utf8` reports (through `Display`) for bytes that
/// are not UTF-8.
pub uninterp spec fn utf8_error_text(bytes: Seq<u8>) -> Seq<char>;

/// Calls `std::str::from_utf8`: the text for valid UTF-8, otherwise the
/// error's text (named `utf8_error_text`).
#[verifier::external_body]
fn str_from_utf8(bytes: &[u8]) -> (r: Result<String, String>)
    ensures
        match r {
            Ok(s) => valid_utf8(bytes@) && s@ == decode_utf8(bytes@),
            Err(e) => !valid_utf8(bytes@) && e@ == utf8_error_text(bytes@),
        },
{
    std::str::from_utf8(bytes).map(|s| s.to_string()).map_err(|e| e.to_string())
}

/// The text of a note stored as `bytes`, or "Note is not valid UTF-8: <reason>".
pub fn note_text(bytes: &[u8]) -> (r: Result<String, String>)
    ensures
        valid_utf8(bytes@) ==> r is Ok && r->Ok_0@ == decode_utf8(bytes@),
        !valid_utf8(bytes@) ==> r is Err && r->Err_0@ == "Note is not valid UTF-8: "@ + utf8_error_text(bytes@),
{
    match str_from_utf8(bytes) {
        Ok(s) => Ok(s),
        Err(e) => {
            let mut m = "Note is not valid UTF-8: ".to_owned();
            m.append(e.as_str());
            Err(m)
        },
    }
}

/// What to stage before a commit.
pub enum StagePlan {
    /// Every change of tracked files, and every new file.
    All,
    /// The changed file at this path.
    Add(String),
    /// The deleted file at this path.
    Remove(String),
}

/// What to stage for `file_path`: everything for "--all", otherwise the
/// file when it exists (`exists`, of `join_path(vault, file_path)`), its
/// removal when it does not.
pub fn staging_plan(file_path: &str, exists: bool) -> (r: StagePlan)
    ensures
        file_path@ == "--all"@ ==> r is All,
        file_path@ != "--all"@ && exists ==> (r matches StagePlan::Add(p) && p@ == file_path@),
        file_path@ != "--all"@ && !exists ==> (r matches StagePlan::Remove(p) && p@ == file_path@),
{
    let all = "--all".to_owned();
    let p = file_path.to_owned();
    if p.eq(&all) {
        StagePlan::All
    } else if exists {
        StagePlan::Add(p)
    } else {
        StagePlan::Remove(p)
    }
}

impl StagePlan {
    /// The error text when staging fails with the git error `err`; for
    /// `All`, `update_step` tells whether the update of tracked files or the
    /// addition of new files failed.
    pub fn failure_message(&self, update_step: bool, err: &str) -> (r: String)
        ensures
            r@ == match self {
                StagePlan::All => if update_step {
                    "index update failed: "@ + err@
                } else {
                    "index add_all failed: "@ + err@
                },
                StagePlan::Add(p) => "index add '"@ + p@ + "' failed: "@ + err@,
                StagePlan::Remove(p) => "index remove '"@ + p@ + "' failed: "@ + err@,
            },
    {
        let mut m = match self {
            StagePlan::All => if update_step {
                "index update failed: ".to_owned()
            } else {
                "index add_all failed: ".to_owned()
            },
            StagePlan::Add(p) => {
                let mut m = "index add '".to_owned();
                m.append(p.as_str());
                m.append("' failed: ");
                m
            },
            StagePlan::Remove(p) => {
                let mut m = "index remove '".to_owned();
                m.append(p.as_str());
                m.append("' failed: ");
                m
            },
        };
        m.append(err);
        m
    }
}

/// The message of the commit that records `file_path`: "Update <path>".
pub fn commit_message(file_path: &str) -> (r: String)
    ensures
        r@ == "Update "@ + file_path@,
{
    let mut m = "Update ".to_owned();
    m.append(file_path);
    m
}

/// Whether a commit is needed: there is no HEAD commit yet, or its tree
/// (`head_tree`) is not the tree written from the index.
pub open spec fn commit_needed(head_tree: Option<Seq<char>>, new_tree: Seq<char>) -> bool {
    match head_tree {
        Some(h) => h != new_tree,
        None => true,
    }
}

/// Committing again when nothing changed creates no commit: once a commit
/// recorded the tree `tree`, HEAD's tree is `tree`, and the same tree
/// written again from the index needs no commit.
pub proof fn law_unchanged_tree_needs_no_commit(tree: Seq<char>)
    ensures
        !commit_needed(Some(tree), tree),
{
}

/// A note reads back as it was written: the UTF-8 bytes of any text are
/// valid, and `note_text` of them gives the text again.
pub proof fn law_note_text_reads_back(text: Seq<char>)
    ensures
        valid_utf8(encode_utf8(text)),
        decode_utf8(encode_utf8(text)) == text,
{
    vstd::utf8::encode_utf8_valid_utf8(text);
    vstd::utf8::encode_utf8_decode_utf8(text);
}

/// Whether a commit is made: not when the tree written from the index is
/// the tree of the HEAD commit (ids as hexadecimal text).
pub fn should_commit(head_tree: Option<&str>, new_tree: &str) -> (r: bool)
    ensures
        r == commit_needed(
            match head_tree {
                Some(h) => Some(h@),
                None => None,
            },
            new_tree@,
        ),
{
    match head_tree {
        None => true,
        Some(h) => {
            let a = h.to_owned();
            let b = new_tree.to_owned();
            !a.eq(&b)
        },
    }
}

/// The identity used for commits when the repository configures none.
pub fn fallback_identity() -> (r: (String, String))
    ensures
        r.0@ == "Cabbage"@,
        r.1@ == "cabbage@local"@,
{
    ("Cabbage".to_owned(), "cabbage@local".to_owned())
}

/// The path whose existence tells that the vault is a git repository.
pub fn git_dir(vault_path: &str) -> (r: String)
    ensures
        r@ == join_spec(vault_path@, ".git"@),
{
    join_path(vault_path, ".git")
}

/// The status bits (as `git2::Status::bits`) of a change that blocks a
/// sync: new, modified or deleted, in the index or in the working tree.
pub const DIRTY_MASK: u32 = 0x387;

/// The status bit of an ignored file.
pub const IGNORED_BIT: u32 = 0x4000;

/// The `git2::Status` flags that decide whether a sync may start.
pub enum StatusFlag {
    IndexNew,
    IndexModified,
    IndexDeleted,
    WtNew,
    WtModified,
    WtDeleted,
    Ignored,
}

/// The bit of `flag` as git2 defines it (`git2::Status::bits`, from
/// libgit2's `git_status_t`: index changes at bits 0 to 2, working tree
/// changes at bits 7 to 9, ignored at bit 14).
#[verifier::external_body]
fn status_bit(flag: &StatusFlag) -> (r: u32)
    ensures
        r == match flag {
            StatusFlag::IndexNew => 0x1u32,
            StatusFlag::IndexModified => 0x2u32,
            StatusFlag::IndexDeleted => 0x4u32,
            StatusFlag::WtNew => 0x80u32,
            StatusFlag::WtModified => 0x100u32,
            StatusFlag::WtDeleted => 0x200u32,
            StatusFlag::Ignored => 0x4000u32,
        },
{
    match flag {
        StatusFlag::IndexNew => git2::Status::INDEX_NEW.bits(),
        StatusFlag::IndexModified => git2::Status::INDEX_MODIFIED.bits(),
        StatusFlag::IndexDeleted => git2::Status::INDEX_DELETED.bits(),
        StatusFlag::WtNew => git2::Status::WT_NEW.bits(),
        StatusFlag::WtModified => git2::Status::WT_MODIFIED.bits(),
        StatusFlag::WtDeleted => git2::Status::WT_DELETED.bits(),
        StatusFlag::Ignored => git2::Status::IGNORED.bits(),
    }
}

/// A status entry that is not ignored and records a change.
pub open spec fn is_dirty_status(bits: u32) -> bool {
    bits & IGNORED_BIT == 0 && bits & DIRTY_MASK != 0
}

/// Some status entry records an uncommitted change.
pub open spec fn has_dirty(statuses: Seq<u32>) -> bool {
    exists|i: int| 0 <= i < statuses.len() && is_dirty_status(#[trigger] statuses[i])
}

/// Whether the repository has uncommitted changes, from the bits of its
/// status entries: an entry that is not ignored and is new, modified or
/// deleted in the index or in the working tree (git2's flags).
pub fn has_uncommitted_changes(statuses: &Vec<u32>) -> (r: bool)
    ensures
        r == has_dirty(statuses@),
{
    let ignored = status_bit(&StatusFlag::Ignored);
    let a = status_bit(&StatusFlag::IndexNew);
    let b = status_bit(&StatusFlag::IndexModified);
    let c = status_bit(&StatusFlag::IndexDeleted);
    let d = status_bit(&StatusFlag::WtNew);
    let e = status_bit(&StatusFlag::WtModified);
    let f = status_bit(&StatusFlag::WtDeleted);
    let dirty = a | b | c | d | e | f;
    assert(dirty == DIRTY_MASK) by (bit_vector)
        requires
            a == 0x1u32,
            b == 0x2u32,
            c == 0x4u32,
            d == 0x80u32,
            e == 0x100u32,
            f == 0x200u32,
            dirty == a | b | c | d | e | f,
    ;
    let mut i: usize = 0;
    while i < statuses.len()
        invariant
            i <= statuses.len(),
            ignored == IGNORED_BIT,
            dirty == DIRTY_MASK,
            forall|j: int| 0 <= j < i ==> !is_dirty_status(#[trigger] statuses@[j]),
        decreases statuses.len() - i,
    {
        let s = statuses[i];
        if s & ignored == 0 && s & dirty != 0 {
            assert(is_dirty_status(statuses@[i as int]));
            return true;
        }
        i = i + 1;
    }
    false
}

/// Where a sync stands.
#[derive(PartialEq, Eq, Structural, Clone, Copy, Debug)]
pub enum SyncStage {
    Idle,
    CheckingStatus,
    Fetching,
    Analyzing,
    Integrating,
    Pushing,
    Done,
}

/// What the caller reports to the sync.
pub enum SyncEvent {
    /// The sync was asked for.
    Started,
    /// The bits of the repository's status entries.
    StatusRead(Vec<u32>),
    /// The branch was fetched from "origin".
    Fetched,
    /// The merge analysis of FETCH_HEAD.
    Analyzed { up_to_date: bool, fast_forward: bool },
    /// The remote changes were integrated.
    Integrated,
    /// The branch was pushed to "origin".
    Pushed,
}

/// An event as a value.
pub enum SyncEventView {
    Started,
    StatusRead(Seq<u32>),
    Fetched,
    Analyzed { up_to_date: bool, fast_forward: bool },
    Integrated,
    Pushed,
}

pub open spec fn sync_event_view(e: SyncEvent) -> SyncEventView {
    match e {
        SyncEvent::Started => SyncEventView::Started,
        SyncEvent::StatusRead(v) => SyncEventView::StatusRead(v@),
        SyncEvent::Fetched => SyncEventView::Fetched,
        SyncEvent::Analyzed { up_to_date, fast_forward } => SyncEventView::Analyzed { up_to_date, fast_forward },
        SyncEvent::Integrated => SyncEventView::Integrated,
        SyncEvent::Pushed => SyncEventView::Pushed,
    }
}

/// What the caller does next.
#[derive(PartialEq, Eq, Structural, Clone, Copy, Debug)]
pub enum SyncAction {
    /// Read the status entries.
    CheckStatus,
    /// Fetch the branch (`fetch_refspec`) from "origin".
    Fetch,
    /// Analyse how FETCH_HEAD merges.
    AnalyzeMerge,
    /// Nothing to integrate; report `Integrated`.
    KeepLocal,
    /// Move the branch to FETCH_HEAD and check it out.
    FastForward,
    /// Replay the local commits on FETCH_HEAD (see `rebase_decision`).
    Rebase,
    /// Push `push_refspec` to "origin".
    Push,
    /// Done: the result is `sync_complete`.
    Finish,
    /// Stop with `dirty_tree_message` as the error.
    FailDirty,
    /// The event does not fit the stage; nothing to do.
    Ignore,
}

/// The progress messages.
pub enum Progress {
    Silent,
    CheckingState,
    Fetching,
    UpToDate,
    FastForwarding,
    Rebasing,
    Pushing,
}

/// The text of a progress message.
pub open spec fn progress_text(p: Progress) -> Option<Seq<char>> {
    match p {
        Progress::Silent => None,
        Progress::CheckingState => Some("Checking repository state..."@),
        Progress::Fetching => Some("Fetching from remote..."@),
        Progress::UpToDate => Some("Already up to date."@),
        Progress::FastForwarding => Some("Fast-forwarding..."@),
        Progress::Rebasing => Some("Rebasing local commits..."@),
        Progress::Pushing => Some("Pushing to remote..."@),
    }
}

/// One step of a sync: fetch, integrate the remote changes (fast-forward
/// when possible, rebase when diverged), then push; a working tree with
/// uncommitted changes stops it before anything is fetched.
pub open spec fn sync_step(stage: SyncStage, event: SyncEventView) -> (SyncStage, SyncAction, Progress) {
    match (stage, event) {
        (SyncStage::Idle, SyncEventView::Started) => (SyncStage::CheckingStatus, SyncAction::CheckStatus, Progress::CheckingState),
        (SyncStage::CheckingStatus, SyncEventView::StatusRead(st)) => if has_dirty(st) {
            (SyncStage::Done, SyncAction::FailDirty, Progress::Silent)
        } else {
            (SyncStage::Fetching, SyncAction::Fetch, Progress::Fetching)
        },
        (SyncStage::Fetching, SyncEventView::Fetched) => (SyncStage::Analyzing, SyncAction::AnalyzeMerge, Progress::Silent),
        (SyncStage::Analyzing, SyncEventView::Analyzed { up_to_date, fast_forward }) => if up_to_date {
            (SyncStage::Integrating, SyncAction::KeepLocal, Progress::UpToDate)
        } else if fast_forward {
            (SyncStage::Integrating, SyncAction::FastForward, Progress::FastForwarding)
        } else {
            (SyncStage::Integrating, SyncAction::Rebase, Progress::Rebasing)
        },
        (SyncStage::Integrating, SyncEventView::Integrated) => (SyncStage::Pushing, SyncAction::Push, Progress::Pushing),
        (SyncStage::Pushing, SyncEventView::Pushed) => (SyncStage::Done, SyncAction::Finish, Progress::Silent),
        _ => (stage, SyncAction::Ignore, Progress::Silent),
    }
}

/// A sync in progress.
pub struct SyncSession {
    pub stage: SyncStage,
}

impl SyncSession {
    /// A sync that has not started.
    pub fn new() -> (r: Self)
        ensures
            r.stage == SyncStage::Idle,
    {
        SyncSession { stage: SyncStage::Idle }
    }

    /// Takes `event` into account: the next action, and the progress message
    /// to report before it.
    pub fn step(&mut self, event: &SyncEvent) -> (r: (SyncAction, Option<String>))
        ensures
            (final(self).stage, r.0) == {
                let t = sync_step(old(self).stage, sync_event_view(*event));
                (t.0, t.1)
            },
            opt_text(r.1) == progress_text(sync_step(old(self).stage, sync_event_view(*event)).2),
    {
        let (stage, action, progress) = match (self.stage, event) {
            (SyncStage::Idle, SyncEvent::Started) => (SyncStage::CheckingStatus, SyncAction::CheckStatus, Progress::CheckingState),
            (SyncStage::CheckingStatus, SyncEvent::StatusRead(st)) => if has_uncommitted_changes(st) {
                (SyncStage::Done, SyncAction::FailDirty, Progress::Silent)
            } else {
                (SyncStage::Fetching, SyncAction::Fetch, Progress::Fetching)
            },
            (SyncStage::Fetching, SyncEvent::Fetched) => (SyncStage::Analyzing, SyncAction::AnalyzeMerge, Progress::Silent),
            (SyncStage::Analyzing, SyncEvent::Analyzed { up_to_date, fast_forward }) => if *up_to_date {
                (SyncStage::Integrating, SyncAction::KeepLocal, Progress::UpToDate)
            } else if *fast_forward {
                (SyncStage::Integrating, SyncAction::FastForward, Progress::FastForwarding)
            } else {
                (SyncStage::Integrating, SyncAction::Rebase, Progress::Rebasing)
            },
            (SyncStage::Integrating, SyncEvent::Integrated) => (SyncStage::Pushing, SyncAction::Push, Progress::Pushing),
            (SyncStage::Pushing, SyncEvent::Pushed) => (SyncStage::Done, SyncAction::Finish, Progress::Silent),
            _ => (self.stage, SyncAction::Ignore, Progress::Silent),
        };
        self.stage = stage;
        (action, progress_message(&progress))
    }
}

/// The text of a progress message.
fn progress_message(p: &Progress) -> (r: Option<String>)
    ensures
        opt_text(r) == progress_text(*p),
{
    match p {
        Progress::Silent => None,
        Progress::CheckingState => Some("Checking repository state...".to_owned()),
        Progress::Fetching => Some("Fetching from remote...".to_owned()),
        Progress::UpToDate => Some("Already up to date.".to_owned()),
        Progress::FastForwarding => Some("Fast-forwarding...".to_owned()),
        Progress::Rebasing => Some("Rebasing local commits...".to_owned()),
        Progress::Pushing => Some("Pushing to remote...".to_owned()),
    }
}

/// The refspec fetched for `branch`: the branch name.
pub fn fetch_refspec(branch: &str) -> (r: String)
    ensures
        r@ == branch@,
{
    branch.to_owned()
}

/// The refspec pushed for `branch`: "refs/heads/<branch>:refs/heads/<branch>".
pub fn push_refspec(branch: &str) -> (r: String)
    ensures
        r@ == "refs/heads/"@ + branch@ + ":refs/heads/"@ + branch@,
{
    let mut m = "refs/heads/".to_owned();
    m.append(branch);
    m.append(":refs/heads/");
    m.append(branch);
    m
}

/// The reference of `branch`: "refs/heads/<branch>".
pub fn branch_ref(branch: &str) -> (r: String)
    ensures
        r@ == "refs/heads/"@ + branch@,
{
    let mut m = "refs/heads/".to_owned();
    m.append(branch);
    m
}

/// The error of a sync stopped by uncommitted changes.
pub fn dirty_tree_message() -> (r: String)
    ensures
        r@ == "Uncommitted changes detected. Auto-commit or stash before syncing."@,
{
    "Uncommitted changes detected. Auto-commit or stash before syncing.".to_owned()
}

/// The result of a sync that went through.
pub fn sync_complete() -> (r: GitResult)
    ensures
        r.success,
        r.output@ == "Sync complete"@,
{
    GitResult { success: true, output: "Sync complete".to_owned() }
}

/// The stage reached and the actions asked for by a run of events from the start.
pub open spec fn sync_run(events: Seq<SyncEventView>) -> (SyncStage, Seq<SyncAction>)
    decreases events.len(),
{
    if events.len() == 0 {
        (SyncStage::Idle, Seq::empty())
    } else {
        let prev = sync_run(events.drop_last());
        let t = sync_step(prev.0, events.last());
        (t.0, prev.1.push(t.1))
    }
}

/// Some event reported a status without uncommitted changes.
pub open spec fn clean_status_seen(events: Seq<SyncEventView>) -> bool {
    exists|j: int| 0 <= j < events.len() && (#[trigger] events[j] matches SyncEventView::StatusRead(st) && !has_dirty(st))
}

proof fn lemma_clean_seen_extends(events: Seq<SyncEventView>)
    requires
        events.len() > 0,
        clean_status_seen(events.drop_last()),
    ensures
        clean_status_seen(events),
{
    let j = choose|j: int| 0 <= j < events.drop_last().len() && (#[trigger] events.drop_last()[j] matches SyncEventView::StatusRead(st) && !has_dirty(st));
    assert(events[j] == events.drop_last()[j]);
}

proof fn lemma_sync_stage_clean(events: Seq<SyncEventView>)
    ensures
        (sync_run(events).0 == SyncStage::Fetching || sync_run(events).0 == SyncStage::Analyzing
            || sync_run(events).0 == SyncStage::Integrating || sync_run(events).0 == SyncStage::Pushing)
            ==> clean_status_seen(events),
        forall|k: int| 0 <= k < sync_run(events).1.len() && #[trigger] sync_run(events).1[k] == SyncAction::Push ==> clean_status_seen(events),
    decreases events.len(),
{
    if events.len() > 0 {
        let pre = events.drop_last();
        lemma_sync_stage_clean(pre);
        let prev = sync_run(pre);
        let t = sync_step(prev.0, events.last());
        if prev.0 == SyncStage::CheckingStatus {
            if let SyncEventView::StatusRead(st) = events.last() {
                if !has_dirty(st) {
                    assert(events[events.len() - 1] == events.last());
                }
            }
        }
        if clean_status_seen(pre) {
            lemma_clean_seen_extends(events);
        }
        assert forall|k: int| 0 <= k < sync_run(events).1.len() && #[trigger] sync_run(events).1[k] == SyncAction::Push implies clean_status_seen(events) by {
            if k < prev.1.len() {
                assert(sync_run(events).1[k] == prev.1[k]);
            }
        }
    }
}

/// A sync pushes only after a status without uncommitted changes was read:
/// whatever the events, no `Push` is asked for before that.
pub proof fn law_push_only_after_clean_status(events: Seq<SyncEventView>, k: int)
    requires
        0 <= k < sync_run(events).1.len(),
        sync_run(events).1[k] == SyncAction::Push,
    ensures
        clean_status_seen(events.take(k + 1)),
    decreases events.len(),
{
    lemma_sync_run_len(events);
    if k + 1 < events.len() {
        let pre = events.drop_last();
        lemma_sync_run_len(pre);
        assert(sync_run(events).1[k] == sync_run(pre).1[k]);
        law_push_only_after_clean_status(pre, k);
        assert(pre.take(k + 1) =~= events.take(k + 1));
    } else {
        lemma_sync_stage_clean(events);
        assert(events.take(k + 1) =~= events);
    }
}

proof fn lemma_sync_run_len(events: Seq<SyncEventView>)
    ensures
        sync_run(events).1.len() == events.len(),
    decreases events.len(),
{
    if events.len() > 0 {
        lemma_sync_run_len(events.drop_last());
    }
}

/// What one step of a rebase reported.
pub enum RebaseStep {
    /// No operation is left.
    Finished,
    /// The operation failed with this error text.
    Failed(String),
    /// The operation was applied; whether the index has conflicts.
    Applied { has_conflicts: bool },
}

/// What to do after a step of a rebase.
pub enum RebaseAction {
    /// Finish the rebase.
    Finish,
    /// Commit the applied operation and go on.
    Commit,
    /// Abort the rebase and fail with this error text.
    Abort(String),
}

/// The decision after a step of a rebase: finish when nothing is left,
/// commit a clean operation, abort on a conflict.
pub fn rebase_decision(step: &RebaseStep) -> (r: RebaseAction)
    ensures
        match step {
            RebaseStep::Finished => r is Finish,
            RebaseStep::Applied { has_conflicts } => if *has_conflicts {
                r matches RebaseAction::Abort(m) && m@ == "Merge conflict detected. Sync aborted. Resolve manually."@
            } else {
                r is Commit
            },
            RebaseStep::Failed(e) => r matches RebaseAction::Abort(m) && m@
                == "Merge conflict detected. Sync aborted. Resolve manually. ("@ + e@ + ")"@,
        },
{
    match step {
        RebaseStep::Finished => RebaseAction::Finish,
        RebaseStep::Applied { has_conflicts } => if *has_conflicts {
            RebaseAction::Abort("Merge conflict detected. Sync aborted. Resolve manually.".to_owned())
        } else {
            RebaseAction::Commit
        },
        RebaseStep::Failed(e) => {
            let mut m = "Merge conflict detected. Sync aborted. Resolve manually. (".to_owned();
            m.append(e.as_str());
            m.append(")");
            RebaseAction::Abort(m)
        },
    }
}

/// A way to authenticate to a remote.
pub enum Credential {
    /// A key from the running ssh-agent.
    Agent,
    /// The key file at this path, when it exists.
    KeyFile(String),
    /// The platform's default credentials (tried last, whatever they give).
    Default,
}

/// The user name for credentials: the one the remote asks for, or "git".
pub fn credential_user(username: Option<&str>) -> (r: String)
    ensures
        r@ == match username {
            Some(u) => u@,
            None => "git"@,
        },
{
    match username {
        Some(u) => u.to_owned(),
        None => "git".to_owned(),
    }
}

/// The key file `name` in the ".ssh" directory under `home`.
pub open spec fn key_path(home: Seq<char>, name: Seq<char>) -> Seq<char> {
    join_spec(join_spec(home, ".ssh"@), name)
}

/// The credentials to try, in order: when SSH keys are allowed, the agent
/// and then the key files id_ed25519, id_ecdsa and id_rsa under
/// `home`/.ssh; when default credentials are allowed, those last.
pub fn credential_attempts(allow_ssh_key: bool, allow_default: bool, home: &str) -> (r: Vec<Credential>)
    ensures
        r@.len() == (if allow_ssh_key { 4int } else { 0int }) + (if allow_default { 1int } else { 0int }),
        allow_ssh_key ==> {
            &&& r@[0] is Agent
            &&& r@[1] matches Credential::KeyFile(p) && p@ == key_path(home@, "id_ed25519"@)
            &&& r@[2] matches Credential::KeyFile(p) && p@ == key_path(home@, "id_ecdsa"@)
            &&& r@[3] matches Credential::KeyFile(p) && p@ == key_path(home@, "id_rsa"@)
        },
        allow_default ==> r@.last() is Default,
{
    let mut out: Vec<Credential> = Vec::new();
    if allow_ssh_key {
        out.push(Credential::Agent);
        let dir = join_path(home, ".ssh");
        out.push(Credential::KeyFile(join_path(dir.as_str(), "id_ed25519")));
        out.push(Credential::KeyFile(join_path(dir.as_str(), "id_ecdsa")));
        out.push(Credential::KeyFile(join_path(dir.as_str(), "id_rsa")));
    }
    if allow_default {
        out.push(Credential::Default);
    }
    out
}

/// The error when no credential worked.
pub fn no_credentials_message() -> (r: String)
    ensures
        r@ == "No suitable credentials found. Configure an ssh-agent, place an SSH key at ~/.ssh/ or use HTTPS with a credential helper."@,
{
    "No suitable credentials found. Configure an ssh-agent, place an SSH key at ~/.ssh/ or use HTTPS with a credential helper.".to_owned()
}

/// A repository operation whose failure is reported with the text of the
/// git error after a fixed prefix.
pub enum GitStep {
    OpenRepository,
    Init,
    Commit,
    FindCommit,
    ReadStatus,
    FindRemote,
    Fetch,
    Push,
    RebaseInit,
    RebaseCommit,
    RebaseFinish,
}

/// The prefix of the error reported when `step` fails.
pub open spec fn step_failure_prefix(step: GitStep) -> Seq<char> {
    match step {
        GitStep::OpenRepository => "Failed to open git repository: "@,
        GitStep::Init => "git init failed: "@,
        GitStep::Commit => "commit failed: "@,
        GitStep::FindCommit => "Commit not found: "@,
        GitStep::ReadStatus => "Failed to check repo status: "@,
        GitStep::FindRemote => "Remote 'origin' not found: "@,
        GitStep::Fetch => "Fetch failed: "@,
        GitStep::Push => "Push failed: "@,
        GitStep::RebaseInit => "Rebase init failed: "@,
        GitStep::RebaseCommit => "Rebase commit failed: "@,
        GitStep::RebaseFinish => "Rebase finish failed: "@,
    }
}

/// The error reported when `step` fails with the git error text `err`: the
/// step's prefix, then `err`.
pub fn step_failure(step: &GitStep, err: &str) -> (r: String)
    ensures
        r@ == step_failure_prefix(*step) + err@,
{
    let mut out = match step {
        GitStep::OpenRepository => "Failed to open git repository: ".to_owned(),
        GitStep::Init => "git init failed: ".to_owned(),
        GitStep::Commit => "commit failed: ".to_owned(),
        GitStep::FindCommit => "Commit not found: ".to_owned(),
        GitStep::ReadStatus => "Failed to check repo status: ".to_owned(),
        GitStep::FindRemote => "Remote 'origin' not found: ".to_owned(),
        GitStep::Fetch => "Fetch failed: ".to_owned(),
        GitStep::Push => "Push failed: ".to_owned(),
        GitStep::RebaseInit => "Rebase init failed: ".to_owned(),
        GitStep::RebaseCommit => "Rebase commit failed: ".to_owned(),
        GitStep::RebaseFinish => "Rebase finish failed: ".to_owned(),
    };
    out.append(err);
    out
}

/// The error when the repository has no HEAD reference.
pub fn no_head_message() -> (r: String)
    ensures
        r@ == "No HEAD reference found"@,
{
    "No HEAD reference found".to_owned()
}

/// The error when HEAD points at no commit.
pub fn head_without_target_message() -> (r: String)
    ensures
        r@ == "HEAD has no target OID"@,
{
    "HEAD has no target OID".to_owned()
}

/// The error when a fetch left no FETCH_HEAD.
pub fn missing_fetch_head_message() -> (r: String)
    ensures
        r@ == "FETCH_HEAD not found \u{2014} remote may have no commits yet"@,
{
    "FETCH_HEAD not found \u{2014} remote may have no commits yet".to_owned()
}

/// Whether a commit of the walk changed the note: for a commit with a
/// parent, whether the diff against the parent limited to the note's path
/// has any delta (`delta_count`); for the root commit, whether the note's
/// path is in its tree (`in_tree`).
pub fn commit_touches(has_parent: bool, delta_count: usize, in_tree: bool) -> (r: bool)
    ensures
        r == if has_parent {
            delta_count > 0
        } else {
            in_tree
        },
{
    if has_parent {
        delta_count > 0
    } else {
        in_tree
    }
}


/// When the merge analysis finds the branch up to date, the local branch is
/// kept, whatever the fast-forward flag says; a rebase happens only when
/// the branch is neither up to date nor can be fast-forwarded.
pub proof fn law_up_to_date_keeps_local(fast_forward: bool, up_to_date: bool)
    ensures
        sync_step(SyncStage::Analyzing, SyncEventView::Analyzed { up_to_date: true, fast_forward }) == (
            SyncStage::Integrating,
            SyncAction::KeepLocal,
            Progress::UpToDate,
        ),
        sync_step(SyncStage::Analyzing, SyncEventView::Analyzed { up_to_date, fast_forward }).1 == SyncAction::Rebase
            ==> !up_to_date && !fast_forward,
        sync_step(SyncStage::Analyzing, SyncEventView::Analyzed { up_to_date, fast_forward }).1
            == SyncAction::FastForward ==> !up_to_date && fast_forward,
        !up_to_date && fast_forward ==> sync_step(
            SyncStage::Analyzing,
            SyncEventView::Analyzed { up_to_date, fast_forward },
        ).1 == SyncAction::FastForward,
        !up_to_date && !fast_forward ==> sync_step(
            SyncStage::Analyzing,
            SyncEventView::Analyzed { up_to_date, fast_forward },
        ).1 == SyncAction::Rebase,
{
}

/// Every entry of a note's history records one of the commits that changed
/// the note: its full hash, its summary and its author, unchanged.
pub proof fn law_history_entries_name_their_commits(commits: Seq<CommitRecord>)
    ensures
        forall|i: int|
            #![trigger history_of(commits)[i]]
            0 <= i < history_of(commits).len() ==> exists|j: int|
                0 <= j < commits.len() && (#[trigger] commits[j]).touches && history_of(commits)[i].0
                    == commits[j].hash@ && history_of(commits)[i].1 == or_empty(opt_text(commits[j].summary))
                    && history_of(commits)[i].3 == or_empty(opt_text(commits[j].author)),
    decreases commits.len(),
{
    if commits.len() > 0 {
        let prev = commits.drop_last();
        law_history_entries_name_their_commits(prev);
        let h = history_of(commits);
        assert forall|i: int| #![trigger h[i]] 0 <= i < h.len() implies exists|j: int|
            0 <= j < commits.len() && (#[trigger] commits[j]).touches && h[i].0 == commits[j].hash@ && h[i].1
                == or_empty(opt_text(commits[j].summary)) && h[i].3 == or_empty(opt_text(commits[j].author)) by {
            if i < history_of(prev).len() {
                let j = choose|j: int|
                    0 <= j < prev.len() && (#[trigger] prev[j]).touches && history_of(prev)[i].0 == prev[j].hash@
                        && history_of(prev)[i].1 == or_empty(opt_text(prev[j].summary)) && history_of(prev)[i].3
                        == or_empty(opt_text(prev[j].author));
                assert(commits[j] == prev[j]);
            } else {
                let j = commits.len() - 1;
                assert(commits[j] == commits.last());
            }
        }
    }
}


/// The commits of a walk that changed the note, in walk order.
pub open spec fn touching(commits: Seq<CommitRecord>) -> Seq<CommitRecord>
    decreases commits.len(),
{
    if commits.len() == 0 {
        Seq::empty()
    } else if commits.last().touches {
        touching(commits.drop_last()).push(commits.last())
    } else {
        touching(commits.drop_last())
    }
}

/// A note's history lists the commits that changed it in walk order, the
/// first 50 of them: entry `i` has the full hash, the summary and the
/// author of the `i`-th such commit.
pub proof fn law_history_lists_the_changing_commits(commits: Seq<CommitRecord>)
    ensures
        history_of(commits).len() == if touching(commits).len() <= 50 {
            touching(commits).len() as int
        } else {
            50
        },
        forall|i: int|
            #![trigger history_of(commits)[i]]
            0 <= i < history_of(commits).len() ==> history_of(commits)[i].0 == touching(commits)[i].hash@
                && history_of(commits)[i].1 == or_empty(opt_text(touching(commits)[i].summary))
                && history_of(commits)[i].3 == or_empty(opt_text(touching(commits)[i].author)),
    decreases commits.len(),
{
    if commits.len() > 0 {
        let prev = commits.drop_last();
        law_history_lists_the_changing_commits(prev);
        let h = history_of(commits);
        let t = touching(commits);
        assert forall|i: int| #![trigger h[i]] 0 <= i < h.len() implies h[i].0 == t[i].hash@ && h[i].1 == or_empty(
            opt_text(t[i].summary),
        ) && h[i].3 == or_empty(opt_text(t[i].author)) by {
            if i < history_of(prev).len() {
                assert(h[i] == history_of(prev)[i]);
                assert(t[i] == touching(prev)[i]);
            } else {
                assert(t[i] == commits.last());
            }
        }
    }
}

} // verus!
