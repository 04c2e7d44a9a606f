//! The backlinks index: for every link target, the notes that contain a
//! `[[target]]` wiki link, in the order in which the links were found.
use vstd::prelude::*;
use crate::path::{is_note, is_note_path, relative_path, relative_to};
use crate::text::{trim, trim_spec};

verus! {

/// The pattern of a wiki link: `[[`, then text without brackets, then `]]`.
pub const WIKI_LINK_PATTERN: &'static str = "\\[\\[([^\\[\\]]+)\\]\\]";

/// What `regex::Regex::new(pattern)` and then `captures_iter(haystack)` yield:
/// `None` when the pattern does not compile, otherwise one item per match in
/// order, the text of the first group when it took part in the match.
pub uninterp spec fn regex_first_groups(pattern: Seq<char>, haystack: Seq<char>) -> Option<
    Seq<Option<Seq<char>>>,
>;

pub open spec fn opt_string_view(o: Option<String>) -> Option<Seq<char>> {
    match o {
        Some(s) => Some(s@),
        None => None,
    }
}

pub open spec fn groups_view(v: Seq<Option<String>>) -> Seq<Option<Seq<char>>> {
    v.map_values(|o: Option<String>| opt_string_view(o))
}

/// A character that may stand inside a wiki link: not a bracket.
pub open spec fn is_link_char(c: char) -> bool {
    c != '[' && c != ']'
}

/// The length of the run of link characters of `s` from position `i` on.
pub open spec fn link_run(s: Seq<char>, i: int) -> nat
    decreases s.len() - i,
{
    if 0 <= i < s.len() && is_link_char(s[i]) {
        1 + link_run(s, i + 1)
    } else {
        0
    }
}

/// Whether a wiki link starts at position `i` of `s`: `[[`, at least one
/// link character, `]]`.
pub open spec fn link_at(s: Seq<char>, i: int) -> bool {
    let n = link_run(s, i + 2);
    &&& 0 <= i
    &&& i + 3 + n < s.len()
    &&& s[i] == '[' && s[i + 1] == '['
    &&& n > 0
    &&& s[i + 2 + n] == ']' && s[i + 3 + n] == ']'
}

/// The texts inside the wiki links of `s` from position `i` on: the
/// leftmost link, then the links after its end, without overlap.
pub open spec fn link_groups_from(s: Seq<char>, i: int) -> Seq<Option<Seq<char>>>
    decreases s.len() - i,
{
    if i < 0 || i >= s.len() {
        Seq::empty()
    } else if link_at(s, i) {
        let n = link_run(s, i + 2);
        seq![Some(s.subrange(i + 2, i + 2 + n))] + link_groups_from(s, i + 4 + n)
    } else {
        link_groups_from(s, i + 1)
    }
}

/// Compiles `pattern` with `regex::Regex::new` and collects, for each match of
/// `Regex::captures_iter` over `haystack`, the text of group 1 if present.
/// The result is named `regex_first_groups`; for the wiki link pattern, the
/// regex crate's leftmost-first, non-overlapping matching gives the texts of
/// `link_groups_from`.
#[verifier::external_body]
fn first_groups(pattern: &str, haystack: &str) -> (r: Option<Vec<Option<String>>>)
    ensures
        match regex_first_groups(pattern@, haystack@) {
            None => r is None,
            Some(gs) => r is Some && groups_view(r->0@) == gs,
        },
        pattern@ == WIKI_LINK_PATTERN@ ==> r is Some && groups_view(r->0@) == link_groups_from(haystack@, 0),
{
    match regex::Regex::new(pattern) {
        Ok(re) => Some(
            re.captures_iter(haystack).map(|c| c.get(1).map(|m| m.as_str().to_string())).collect(),
        ),
        Err(_) => None,
    }
}

/// The trimmed text of a group, when it took part in the match.
pub open spec fn trimmed_group(g: Option<Seq<char>>) -> Option<Seq<char>> {
    match g {
        Some(t) => Some(trim_spec(t)),
        None => None,
    }
}

/// The link targets of a note, in order: the trimmed text inside every
/// `[[...]]` wiki link (see `link_groups_from`).
pub open spec fn wiki_links(content: Seq<char>) -> Seq<Seq<char>> {
    link_groups_from(content, 0).filter_map(|g: Option<Seq<char>>| trimmed_group(g))
}

pub open spec fn strings_view(v: Seq<String>) -> Seq<Seq<char>> {
    v.map_values(|s: String| s@)
}

/// The link targets of the groups of the wiki link matches: the trimmed text
/// of each group that took part in its match, in order.
pub fn links_of_groups(groups: &Vec<Option<String>>) -> (r: Vec<String>)
    ensures
        strings_view(r@) == groups_view(groups@).filter_map(|g: Option<Seq<char>>| trimmed_group(g)),
{
    let ghost gs = groups_view(groups@);
    let mut out: Vec<String> = Vec::new();
    let mut i: usize = 0;
    assert(gs.take(0) =~= Seq::<Option<Seq<char>>>::empty());
    while i < groups.len()
        invariant
            i <= groups.len(),
            gs == groups_view(groups@),
            strings_view(out@) == gs.take(i as int).filter_map(|g: Option<Seq<char>>| trimmed_group(g)),
        decreases groups.len() - i,
    {
        assert(gs.take(i + 1).drop_last() =~= gs.take(i as int));
        assert(gs.take(i + 1).last() == opt_string_view(groups@[i as int]));
        match &groups[i] {
            Some(t) => {
                let ghost before = out@;
                out.push(trim(t.as_str()));
                assert(strings_view(out@) =~= strings_view(before) + seq![trim_spec(t@)]);
            },
            None => {},
        }
        i = i + 1;
    }
    assert(gs.take(groups.len() as int) =~= gs);
    out
}

/// The link targets of a note (see `wiki_links`).
pub fn note_links(content: &str) -> (r: Vec<String>)
    ensures
        strings_view(r@) == wiki_links(content@),
{
    match first_groups(WIKI_LINK_PATTERN, content) {
        Some(groups) => links_of_groups(&groups),
        None => Vec::new(),
    }
}

/// The notes that link to one target.
pub struct Backlinks {
    pub target: String,
    pub sources: Vec<String>,
}

pub open spec fn entry_view(e: Backlinks) -> (Seq<char>, Seq<Seq<char>>) {
    (e.target@, strings_view(e.sources@))
}

pub open spec fn entries_view(v: Seq<Backlinks>) -> Seq<(Seq<char>, Seq<Seq<char>>)> {
    v.map_values(|e: Backlinks| entry_view(e))
}

/// Entries with pairwise different targets.
pub open spec fn distinct_targets(es: Seq<(Seq<char>, Seq<Seq<char>>)>) -> bool {
    forall|i: int, j: int| 0 <= i < es.len() && 0 <= j < es.len() && i != j ==> #[trigger] es[i].0 != #[trigger] es[j].0
}

/// The map from each target to its sources.
pub open spec fn map_of(es: Seq<(Seq<char>, Seq<Seq<char>>)>) -> Map<Seq<char>, Seq<Seq<char>>> {
    Map::new(
        |k: Seq<char>| exists|i: int| 0 <= i < es.len() && #[trigger] es[i].0 == k,
        |k: Seq<char>| es[choose|i: int| 0 <= i < es.len() && #[trigger] es[i].0 == k].1,
    )
}

/// The backlinks index: for each target, the notes that link to it, in the
/// order in which the links were found.
pub struct BacklinkIndex {
    entries: Vec<Backlinks>,
}

impl BacklinkIndex {
    pub closed spec fn entry_seq(&self) -> Seq<(Seq<char>, Seq<Seq<char>>)> {
        entries_view(self.entries@)
    }

    /// No target has two entries.
    #[verifier::type_invariant]
    pub closed spec fn wf(&self) -> bool {
        distinct_targets(self.entry_seq())
    }
}

impl View for BacklinkIndex {
    type V = Map<Seq<char>, Seq<Seq<char>>>;

    open spec fn view(&self) -> Map<Seq<char>, Seq<Seq<char>>> {
        map_of(self.entry_seq())
    }
}

/// `m` with one more link from `source` to `target`.
pub open spec fn add_link(m: Map<Seq<char>, Seq<Seq<char>>>, target: Seq<char>, source: Seq<char>) -> Map<
    Seq<char>,
    Seq<Seq<char>>,
> {
    m.insert(
        target,
        if m.dom().contains(target) {
            m[target].push(source)
        } else {
            seq![source]
        },
    )
}

/// `m` with a link from `source` to each of `targets`, in order.
pub open spec fn add_links(
    m: Map<Seq<char>, Seq<Seq<char>>>,
    source: Seq<char>,
    targets: Seq<Seq<char>>,
) -> Map<Seq<char>, Seq<Seq<char>>>
    decreases targets.len(),
{
    if targets.len() == 0 {
        m
    } else {
        add_link(add_links(m, source, targets.drop_last()), targets.last(), source)
    }
}

/// `ss` without any occurrence of `s`.
pub open spec fn without(ss: Seq<Seq<char>>, s: Seq<char>) -> Seq<Seq<char>>
    decreases ss.len(),
{
    if ss.len() == 0 {
        ss
    } else {
        let r = without(ss.drop_last(), s);
        if ss.last() == s {
            r
        } else {
            r.push(ss.last())
        }
    }
}

/// `m` with `source` removed from every list, and the lists left empty dropped.
pub open spec fn remove_source(m: Map<Seq<char>, Seq<Seq<char>>>, source: Seq<char>) -> Map<
    Seq<char>,
    Seq<Seq<char>>,
> {
    Map::new(
        |k: Seq<char>| m.dom().contains(k) && without(m[k], source).len() > 0,
        |k: Seq<char>| without(m[k], source),
    )
}

proof fn lemma_map_of_at(es: Seq<(Seq<char>, Seq<Seq<char>>)>, i: int)
    requires
        distinct_targets(es),
        0 <= i < es.len(),
    ensures
        map_of(es).dom().contains(es[i].0),
        map_of(es)[es[i].0] == es[i].1,
{
    let k = es[i].0;
    assert(exists|j: int| 0 <= j < es.len() && #[trigger] es[j].0 == k);
    let c = choose|j: int| 0 <= j < es.len() && #[trigger] es[j].0 == k;
    assert(c == i);
}

proof fn lemma_map_of_push(es: Seq<(Seq<char>, Seq<Seq<char>>)>, e: (Seq<char>, Seq<Seq<char>>))
    requires
        distinct_targets(es),
        !map_of(es).dom().contains(e.0),
    ensures
        distinct_targets(es.push(e)),
        map_of(es.push(e)) == map_of(es).insert(e.0, e.1),
{
    let n = es.push(e);
    assert forall|i: int, j: int| 0 <= i < n.len() && 0 <= j < n.len() && i != j implies #[trigger] n[i].0 != #[trigger] n[j].0 by {
        if i == es.len() {
            assert(n[j] == es[j]);
        } else if j == es.len() {
            assert(n[i] == es[i]);
        } else {
            assert(n[i] == es[i] && n[j] == es[j]);
        }
    }
    assert forall|k: Seq<char>| #![auto] map_of(n).dom().contains(k) == map_of(es).insert(e.0, e.1).dom().contains(k) by {
        if map_of(es).dom().contains(k) {
            let w = choose|i: int| 0 <= i < es.len() && #[trigger] es[i].0 == k;
            assert(n[w].0 == k);
        }
        if map_of(n).dom().contains(k) && k != e.0 {
            let w = choose|i: int| 0 <= i < n.len() && #[trigger] n[i].0 == k;
            assert(es[w].0 == k);
        }
        if k == e.0 {
            assert(n[es.len() as int].0 == k);
        }
    }
    assert forall|k: Seq<char>| #![auto] map_of(n).dom().contains(k) implies map_of(n)[k] == map_of(es).insert(e.0, e.1)[k] by {
        let w = choose|i: int| 0 <= i < n.len() && #[trigger] n[i].0 == k;
        lemma_map_of_at(n, w);
        if w < es.len() {
            assert(n[w] == es[w]);
            lemma_map_of_at(es, w);
        }
    }
    assert(map_of(n) =~= map_of(es).insert(e.0, e.1));
}

proof fn lemma_map_of_update(es: Seq<(Seq<char>, Seq<Seq<char>>)>, i: int, v: Seq<Seq<char>>)
    requires
        distinct_targets(es),
        0 <= i < es.len(),
    ensures
        distinct_targets(es.update(i, (es[i].0, v))),
        map_of(es.update(i, (es[i].0, v))) == map_of(es).insert(es[i].0, v),
{
    let n = es.update(i, (es[i].0, v));
    assert forall|a: int, b: int| 0 <= a < n.len() && 0 <= b < n.len() && a != b implies #[trigger] n[a].0 != #[trigger] n[b].0 by {
        assert(n[a].0 == es[a].0 && n[b].0 == es[b].0);
    }
    assert forall|k: Seq<char>| #![auto] map_of(n).dom().contains(k) == map_of(es).insert(es[i].0, v).dom().contains(k) by {
        if map_of(es).dom().contains(k) {
            let w = choose|j: int| 0 <= j < es.len() && #[trigger] es[j].0 == k;
            assert(n[w].0 == k);
        }
        if map_of(n).dom().contains(k) {
            let w = choose|j: int| 0 <= j < n.len() && #[trigger] n[j].0 == k;
            assert(es[w].0 == k);
        }
        if k == es[i].0 {
            assert(n[i].0 == k);
        }
    }
    assert forall|k: Seq<char>| #![auto] map_of(n).dom().contains(k) implies map_of(n)[k] == map_of(es).insert(es[i].0, v)[k] by {
        let w = choose|j: int| 0 <= j < n.len() && #[trigger] n[j].0 == k;
        lemma_map_of_at(n, w);
        if w != i {
            lemma_map_of_at(es, w);
        }
    }
    assert(map_of(n) =~= map_of(es).insert(es[i].0, v));
}

proof fn lemma_remove_source_insert(
    m: Map<Seq<char>, Seq<Seq<char>>>,
    k: Seq<char>,
    v: Seq<Seq<char>>,
    s: Seq<char>,
)
    requires
        !m.dom().contains(k),
    ensures
        remove_source(m.insert(k, v), s) == if without(v, s).len() > 0 {
            remove_source(m, s).insert(k, without(v, s))
        } else {
            remove_source(m, s)
        },
{
    if without(v, s).len() > 0 {
        assert(remove_source(m.insert(k, v), s) =~= remove_source(m, s).insert(k, without(v, s)));
    } else {
        assert(remove_source(m.insert(k, v), s) =~= remove_source(m, s));
    }
}

/// The sources of `ss` that are not `s`.
fn without_source(ss: &Vec<String>, s: &String) -> (r: Vec<String>)
    ensures
        strings_view(r@) == without(strings_view(ss@), s@),
{
    let mut out: Vec<String> = Vec::new();
    let mut i: usize = 0;
    assert(strings_view(ss@).take(0) =~= Seq::<Seq<char>>::empty());
    while i < ss.len()
        invariant
            i <= ss.len(),
            strings_view(out@) == without(strings_view(ss@).take(i as int), s@),
        decreases ss.len() - i,
    {
        let ghost before = out@;
        assert(strings_view(ss@).take(i + 1).drop_last() =~= strings_view(ss@).take(i as int));
        assert(strings_view(ss@).take(i + 1).last() == ss@[i as int]@);
        if !ss[i].eq(s) {
            out.push(ss[i].clone());
            assert(strings_view(out@) =~= strings_view(before).push(ss@[i as int]@));
        }
        i = i + 1;
    }
    assert(strings_view(ss@).take(ss.len() as int) =~= strings_view(ss@));
    out
}

/// A copy of a list of strings.
pub fn copy_strings(ss: &Vec<String>) -> (r: Vec<String>)
    ensures
        r@ == ss@,
{
    let mut out: Vec<String> = Vec::new();
    let mut i: usize = 0;
    while i < ss.len()
        invariant
            i <= ss.len(),
            out@ == ss@.take(i as int),
        decreases ss.len() - i,
    {
        out.push(ss[i].clone());
        assert(out@ =~= ss@.take(i + 1));
        i = i + 1;
    }
    assert(ss@.take(ss.len() as int) =~= ss@);
    out
}

impl BacklinkIndex {
    /// The empty index.
    pub fn new() -> (r: Self)
        ensures
            r@ == Map::<Seq<char>, Seq<Seq<char>>>::empty(),
    {
        let r = BacklinkIndex { entries: Vec::new() };
        assert(r@ =~= Map::<Seq<char>, Seq<Seq<char>>>::empty());
        r
    }

    /// The position of the entry for `target`, if there is one.
    fn position(&self, target: &String) -> (r: Option<usize>)
        ensures
            match r {
                Some(i) => i < self.entry_seq().len() && self.entry_seq()[i as int].0 == target@,
                None => forall|i: int| 0 <= i < self.entry_seq().len() ==> #[trigger] self.entry_seq()[i].0 != target@,
            },
    {
        let mut i: usize = 0;
        while i < self.entries.len()
            invariant
                i <= self.entries.len(),
                self.entry_seq().len() == self.entries.len(),
                forall|j: int| 0 <= j < i ==> #[trigger] self.entry_seq()[j].0 != target@,
            decreases self.entries.len() - i,
        {
            assert(self.entry_seq()[i as int] == entry_view(self.entries@[i as int]));
            if self.entries[i].target.eq(target) {
                return Some(i);
            }
            i = i + 1;
        }
        None
    }

    /// The sources that link to `target`; empty when there are none.
    pub fn get(&self, target: &String) -> (r: Vec<String>)
        ensures
            strings_view(r@) == if self@.dom().contains(target@) {
                self@[target@]
            } else {
                Seq::<Seq<char>>::empty()
            },
    {
        proof {
            use_type_invariant(self);
        }
        match self.position(target) {
            Some(i) => {
                proof {
                    lemma_map_of_at(self.entry_seq(), i as int);
                }
                assert(self.entry_seq()[i as int] == entry_view(self.entries@[i as int]));
                copy_strings(&self.entries[i].sources)
            },
            None => {
                assert(!self@.dom().contains(target@));
                let r: Vec<String> = Vec::new();
                assert(strings_view(r@) =~= Seq::<Seq<char>>::empty());
                r
            },
        }
    }

    /// Records a link from `source` to `target`, after the links already
    /// recorded for `target`.
    pub fn add_link(&mut self, target: String, source: String)
        ensures
            final(self)@ == add_link(old(self)@, target@, source@),
    {
        proof {
            use_type_invariant(&*self);
        }
        let ghost es = self.entry_seq();
        let pos = self.position(&target);
        let mut entries: Vec<Backlinks> = Vec::new();
        std::mem::swap(&mut entries, &mut self.entries);
        assert(entries_view(entries@) == es);
        match pos {
            Some(i) => {
                proof {
                    lemma_map_of_at(es, i as int);
                    lemma_map_of_update(es, i as int, es[i as int].1.push(source@));
                }
                assert(es[i as int] == entry_view(entries@[i as int]));
                let ghost old_entries = entries@;
                let ghost sv = source@;
                entries[i].sources.push(source);
                assert(entries@.len() == old_entries.len());
                assert(entries@[i as int].target == old_entries[i as int].target);
                assert(strings_view(entries@[i as int].sources@) =~= strings_view(
                    old_entries[i as int].sources@,
                ).push(sv));
                assert(forall|j: int| 0 <= j < old_entries.len() && j != i ==> entries@[j] == old_entries[j]);
                assert(entries_view(entries@) =~= es.update(i as int, (es[i as int].0, es[i as int].1.push(source@))));
            },
            None => {
                assert(!map_of(es).dom().contains(target@));
                let ghost e = (target@, seq![source@]);
                proof {
                    lemma_map_of_push(es, e);
                }
                let mut srcs: Vec<String> = Vec::new();
                srcs.push(source);
                entries.push(Backlinks { target, sources: srcs });
                assert(strings_view(srcs@) =~= seq![e.1[0]]);
                assert(entries_view(entries@) =~= es.push(e));
            },
        }
        self.entries = entries;
    }

    /// Sets the notes that link to `target` to `sources`, in place of those
    /// recorded so far.
    pub fn set_sources(&mut self, target: String, sources: Vec<String>)
        ensures
            final(self)@ == old(self)@.insert(target@, strings_view(sources@)),
    {
        proof {
            use_type_invariant(&*self);
        }
        let ghost es = self.entry_seq();
        let ghost e = (target@, strings_view(sources@));
        let pos = self.position(&target);
        let mut entries: Vec<Backlinks> = Vec::new();
        std::mem::swap(&mut entries, &mut self.entries);
        assert(entries_view(entries@) == es);
        match pos {
            Some(i) => {
                proof {
                    lemma_map_of_update(es, i as int, e.1);
                }
                entries.set(i, Backlinks { target, sources });
                assert(entries_view(entries@) =~= es.update(i as int, (es[i as int].0, e.1)));
            },
            None => {
                assert(!map_of(es).dom().contains(target@));
                proof {
                    lemma_map_of_push(es, e);
                }
                entries.push(Backlinks { target, sources });
                assert(entries_view(entries@) =~= es.push(e));
            },
        }
        self.entries = entries;
    }

    /// Removes `source` from every list and drops the lists left empty.
    pub fn remove_source(&mut self, source: &String)
        ensures
            final(self)@ == remove_source(old(self)@, source@),
    {
        proof {
            use_type_invariant(&*self);
        }
        let ghost es = self.entry_seq();
        let mut kept: Vec<Backlinks> = Vec::new();
        let mut i: usize = 0;
        assert(es.take(0) =~= Seq::<(Seq<char>, Seq<Seq<char>>)>::empty());
        assert(remove_source(map_of(es.take(0)), source@) =~= map_of(Seq::<(Seq<char>, Seq<Seq<char>>)>::empty()));
        while i < self.entries.len()
            invariant
                i <= self.entries.len(),
                es == self.entry_seq(),
                distinct_targets(es),
                distinct_targets(entries_view(kept@)),
                forall|j: int| 0 <= j < kept@.len() ==> map_of(es.take(i as int)).dom().contains(
                    #[trigger] entries_view(kept@)[j].0,
                ),
                map_of(entries_view(kept@)) == remove_source(map_of(es.take(i as int)), source@),
            decreases self.entries.len() - i,
        {
            let ghost ks = entries_view(kept@);
            let ghost e = es[i as int];
            assert(e == entry_view(self.entries@[i as int]));
            assert(es.take(i + 1) =~= es.take(i as int).push(e));
            assert(distinct_targets(es.take(i as int))) by {
                assert forall|a: int, b: int| 0 <= a < es.take(i as int).len() && 0 <= b < es.take(i as int).len() && a != b
                    implies #[trigger] es.take(i as int)[a].0 != #[trigger] es.take(i as int)[b].0 by {
                    assert(es.take(i as int)[a] == es[a] && es.take(i as int)[b] == es[b]);
                }
            }
            assert(!map_of(es.take(i as int)).dom().contains(e.0)) by {
                if map_of(es.take(i as int)).dom().contains(e.0) {
                    let w = choose|j: int| 0 <= j < es.take(i as int).len() && #[trigger] es.take(i as int)[j].0 == e.0;
                    assert(es[w].0 == es[i as int].0);
                }
            }
            proof {
                lemma_map_of_push(es.take(i as int), e);
                lemma_remove_source_insert(map_of(es.take(i as int)), e.0, e.1, source@);
            }
            let filtered = without_source(&self.entries[i].sources, source);
            if filtered.len() > 0 {
                let ghost ne = (e.0, without(e.1, source@));
                assert(!map_of(ks).dom().contains(ne.0)) by {
                    if map_of(ks).dom().contains(ne.0) {
                        let w = choose|j: int| 0 <= j < ks.len() && #[trigger] ks[j].0 == ne.0;
                        assert(map_of(es.take(i as int)).dom().contains(ks[w].0));
                    }
                }
                proof {
                    lemma_map_of_push(ks, ne);
                }
                kept.push(Backlinks { target: self.entries[i].target.clone(), sources: filtered });
                assert(entries_view(kept@) =~= ks.push(ne));
                assert forall|j: int| 0 <= j < kept@.len() implies map_of(es.take(i + 1)).dom().contains(
                    #[trigger] entries_view(kept@)[j].0,
                ) by {
                    if j < ks.len() {
                        assert(entries_view(kept@)[j] == ks[j]);
                    }
                }
            } else {
                assert forall|j: int| 0 <= j < kept@.len() implies map_of(es.take(i + 1)).dom().contains(
                    #[trigger] entries_view(kept@)[j].0,
                ) by {
                    assert(map_of(es.take(i as int)).dom().contains(ks[j].0));
                }
            }
            i = i + 1;
        }
        assert(es.take(self.entries.len() as int) =~= es);
        self.entries = kept;
    }
}

impl BacklinkIndex {
    /// The number of targets.
    pub fn target_count(&self) -> (r: usize)
        ensures
            r == self.entry_seq().len(),
    {
        self.entries.len()
    }

    /// The target of the `i`-th entry.
    pub fn target_at(&self, i: usize) -> (r: &String)
        requires
            i < self.entry_seq().len(),
        ensures
            r@ == self.entry_seq()[i as int].0,
    {
        assert(self.entry_seq()[i as int] == entry_view(self.entries@[i as int]));
        &self.entries[i].target
    }

    /// The sources of the `i`-th entry.
    pub fn sources_at(&self, i: usize) -> (r: &Vec<String>)
        requires
            i < self.entry_seq().len(),
        ensures
            strings_view(r@) == self.entry_seq()[i as int].1,
    {
        assert(self.entry_seq()[i as int] == entry_view(self.entries@[i as int]));
        &self.entries[i].sources
    }
}

/// The entries of an index are its map, target by target.
pub proof fn lemma_entries_are_the_map(idx: BacklinkIndex)
    requires
        idx.wf(),
    ensures
        distinct_targets(idx.entry_seq()),
        idx@ == map_of(idx.entry_seq()),
        forall|i: int| 0 <= i < idx.entry_seq().len() ==> #[trigger] idx@[idx.entry_seq()[i].0] == idx.entry_seq()[i].1,
{
    assert forall|i: int| 0 <= i < idx.entry_seq().len() implies #[trigger] idx@[idx.entry_seq()[i].0] == idx.entry_seq()[i].1 by {
        lemma_map_of_at(idx.entry_seq(), i);
    }
}

/// A link from `source` to each of `targets`, in order.
fn add_all_links(idx: &mut BacklinkIndex, source: &String, targets: &Vec<String>)
    ensures
        final(idx)@ == add_links(old(idx)@, source@, strings_view(targets@)),
{
    let ghost start = idx@;
    let mut i: usize = 0;
    assert(strings_view(targets@).take(0) =~= Seq::<Seq<char>>::empty());
    while i < targets.len()
        invariant
            i <= targets.len(),
            idx@ == add_links(start, source@, strings_view(targets@).take(i as int)),
        decreases targets.len() - i,
    {
        assert(strings_view(targets@).take(i + 1).drop_last() =~= strings_view(targets@).take(i as int));
        assert(strings_view(targets@).take(i + 1).last() == targets@[i as int]@);
        idx.add_link(targets[i].clone(), source.clone());
        i = i + 1;
    }
    assert(strings_view(targets@).take(targets.len() as int) =~= strings_view(targets@));
}

/// A file met while walking the vault: its path, whether it is a regular
/// file, and its text when it could be read.
pub struct VaultFile {
    pub path: String,
    pub is_file: bool,
    pub content: Option<String>,
}

pub open spec fn vault_file_view(f: VaultFile) -> (Seq<char>, bool, Option<Seq<char>>) {
    (f.path@, f.is_file, opt_string_view(f.content))
}

pub open spec fn vault_files_view(fs: Seq<VaultFile>) -> Seq<(Seq<char>, bool, Option<Seq<char>>)> {
    fs.map_values(|f: VaultFile| vault_file_view(f))
}

/// The backlinks of the files of the vault at `root`, walked in order: every
/// readable markdown note adds a link from its path relative to the root to
/// each of its wiki link targets. Whether a file is a note (see
/// `is_note_path`) is decided on its path relative to the root, so that a
/// vault may itself lie in a directory whose name starts with '.'.
pub open spec fn index_of_files(root: Seq<char>, fs: Seq<(Seq<char>, bool, Option<Seq<char>>)>) -> Map<
    Seq<char>,
    Seq<Seq<char>>,
>
    decreases fs.len(),
{
    if fs.len() == 0 {
        Map::empty()
    } else {
        let prev = index_of_files(root, fs.drop_last());
        let f = fs.last();
        let rel = relative_to(f.0, root);
        if f.1 && is_note_path(rel) && f.2 is Some {
            add_links(prev, rel, wiki_links(f.2->0))
        } else {
            prev
        }
    }
}

/// The index after the note `rel` was saved with `content` (`None` when it
/// no longer exists or cannot be read): its old links are dropped and its
/// current ones added.
pub open spec fn update_spec(
    m: Map<Seq<char>, Seq<Seq<char>>>,
    rel: Seq<char>,
    content: Option<Seq<char>>,
) -> Map<Seq<char>, Seq<Seq<char>>> {
    match content {
        None => remove_source(m, rel),
        Some(c) => add_links(remove_source(m, rel), rel, wiki_links(c)),
    }
}

/// Builds the backlinks index of the vault at `vault_path` from the files
/// of a walk of the vault (see `index_of_files`).
pub fn build_index(vault_path: &str, files: &Vec<VaultFile>) -> (r: BacklinkIndex)
    ensures
        r@ == index_of_files(vault_path@, vault_files_view(files@)),
{
    let mut idx = BacklinkIndex::new();
    let mut i: usize = 0;
    assert(vault_files_view(files@).take(0) =~= Seq::<(Seq<char>, bool, Option<Seq<char>>)>::empty());
    while i < files.len()
        invariant
            i <= files.len(),
            idx@ == index_of_files(vault_path@, vault_files_view(files@).take(i as int)),
        decreases files.len() - i,
    {
        let ghost fv = vault_files_view(files@);
        assert(fv.take(i + 1).drop_last() =~= fv.take(i as int));
        assert(fv.take(i + 1).last() == vault_file_view(files@[i as int]));
        let f = &files[i];
        let source = relative_path(f.path.as_str(), vault_path);
        if f.is_file && is_note(source.as_str()) {
            match &f.content {
                Some(c) => {
                    let links = note_links(c.as_str());
                    add_all_links(&mut idx, &source, &links);
                },
                None => {},
            }
        }
        i = i + 1;
    }
    assert(vault_files_view(files@).take(files.len() as int) =~= vault_files_view(files@));
    idx
}

/// Re-scans the note `rel_path` after it changed: removes every link that
/// originates from it, then adds the links of `content` (`None` when the
/// note no longer exists or cannot be read).
pub fn update_index(backlinks: &mut BacklinkIndex, rel_path: &str, content: Option<&str>)
    ensures
        final(backlinks)@ == update_spec(
            old(backlinks)@,
            rel_path@,
            match content {
                Some(c) => Some(c@),
                None => None,
            },
        ),
{
    let source = rel_path.to_owned();
    backlinks.remove_source(&source);
    match content {
        None => {},
        Some(c) => {
            let links = note_links(c);
            add_all_links(backlinks, &source, &links);
        },
    }
}

/// Removes every link that originates from `rel_path` (when the note is deleted).
pub fn remove_file(backlinks: &mut BacklinkIndex, rel_path: &str)
    ensures
        final(backlinks)@ == remove_source(old(backlinks)@, rel_path@),
{
    let source = rel_path.to_owned();
    backlinks.remove_source(&source);
}

/// The notes that link to `note_name`; empty when there are none.
pub fn get_backlinks(backlinks: &BacklinkIndex, note_name: &str) -> (r: Vec<String>)
    ensures
        strings_view(r@) == if backlinks@.dom().contains(note_name@) {
            backlinks@[note_name@]
        } else {
            Seq::<Seq<char>>::empty()
        },
{
    backlinks.get(&note_name.to_owned())
}

proof fn lemma_without_absent(ss: Seq<Seq<char>>, s: Seq<char>)
    ensures
        !without(ss, s).contains(s),
        !ss.contains(s) ==> without(ss, s) == ss,
    decreases ss.len(),
{
    if ss.len() > 0 {
        lemma_without_absent(ss.drop_last(), s);
        let r = without(ss.drop_last(), s);
        if ss.last() != s {
            assert forall|i: int| 0 <= i < r.push(ss.last()).len() implies r.push(ss.last())[i] != s by {
                if i < r.len() {
                    assert(r.push(ss.last())[i] == r[i]);
                }
            }
        }
        if !ss.contains(s) {
            assert(!ss.drop_last().contains(s)) by {
                if ss.drop_last().contains(s) {
                    let w = choose|i: int| 0 <= i < ss.drop_last().len() && ss.drop_last()[i] == s;
                    assert(ss[w] == s);
                }
            }
            assert(ss[ss.len() - 1] != s);
            assert(ss.drop_last().push(ss.last()) =~= ss);
        }
    }
}

/// Lists of a map that are all non-empty.
pub open spec fn lists_nonempty(m: Map<Seq<char>, Seq<Seq<char>>>) -> bool {
    forall|k: Seq<char>| #[trigger] m.dom().contains(k) ==> m[k].len() > 0
}

/// `source` occurs in none of the lists of `m`.
pub open spec fn source_absent(m: Map<Seq<char>, Seq<Seq<char>>>, source: Seq<char>) -> bool {
    forall|k: Seq<char>| #[trigger] m.dom().contains(k) ==> !m[k].contains(source)
}

/// After a note is removed from the index, no list names it any more.
pub proof fn law_removed_note_is_gone(m: Map<Seq<char>, Seq<Seq<char>>>, source: Seq<char>)
    ensures
        source_absent(remove_source(m, source), source),
        lists_nonempty(remove_source(m, source)),
{
    assert forall|k: Seq<char>| #[trigger] remove_source(m, source).dom().contains(k) implies !remove_source(m, source)[k].contains(source) by {
        lemma_without_absent(m[k], source);
    }
}

/// Removing a note that no list names changes nothing (in an index whose
/// lists are all non-empty).
pub proof fn law_remove_absent_source(m: Map<Seq<char>, Seq<Seq<char>>>, source: Seq<char>)
    requires
        lists_nonempty(m),
        source_absent(m, source),
    ensures
        remove_source(m, source) == m,
{
    assert forall|k: Seq<char>| #[trigger] m.dom().contains(k) implies without(m[k], source) == m[k] by {
        lemma_without_absent(m[k], source);
    }
    assert(remove_source(m, source) =~= m);
}

/// Removing a note twice is the same as removing it once.
pub proof fn law_remove_file_idempotent(m: Map<Seq<char>, Seq<Seq<char>>>, source: Seq<char>)
    ensures
        remove_source(remove_source(m, source), source) == remove_source(m, source),
{
    law_removed_note_is_gone(m, source);
    law_remove_absent_source(remove_source(m, source), source);
}

proof fn lemma_add_links_nonempty(m: Map<Seq<char>, Seq<Seq<char>>>, source: Seq<char>, ts: Seq<Seq<char>>)
    requires
        lists_nonempty(m),
    ensures
        lists_nonempty(add_links(m, source, ts)),
    decreases ts.len(),
{
    if ts.len() > 0 {
        lemma_add_links_nonempty(m, source, ts.drop_last());
    }
}

/// The lists of an index built from a walk of the vault are never empty.
pub proof fn law_built_lists_nonempty(root: Seq<char>, fs: Seq<(Seq<char>, bool, Option<Seq<char>>)>)
    ensures
        lists_nonempty(index_of_files(root, fs)),
    decreases fs.len(),
{
    if fs.len() > 0 {
        law_built_lists_nonempty(root, fs.drop_last());
        let f = fs.last();
        if f.1 && is_note_path(relative_to(f.0, root)) && f.2 is Some {
            lemma_add_links_nonempty(index_of_files(root, fs.drop_last()), relative_to(f.0, root), wiki_links(f.2->0));
        }
    }
}

proof fn lemma_add_links_names_source(
    m: Map<Seq<char>, Seq<Seq<char>>>,
    source: Seq<char>,
    ts: Seq<Seq<char>>,
    t: Seq<char>,
)
    ensures
        (add_links(m, source, ts).dom().contains(t) && add_links(m, source, ts)[t].contains(source)) <==> ((m.dom().contains(t) && m[t].contains(source)) || ts.contains(t)),
    decreases ts.len(),
{
    if ts.len() > 0 {
        lemma_add_links_names_source(m, source, ts.drop_last(), t);
        let prev = add_links(m, source, ts.drop_last());
        let last = ts.last();
        if t == last {
            assert(ts.contains(t)) by {
                assert(ts[ts.len() - 1] == t);
            }
            if prev.dom().contains(t) {
                assert(prev[t].push(source)[prev[t].len() as int] == source);
            } else {
                assert(seq![source][0] == source);
            }
        } else {
            assert(ts.contains(t) <==> ts.drop_last().contains(t)) by {
                if ts.contains(t) {
                    let w = choose|i: int| 0 <= i < ts.len() && ts[i] == t;
                    assert(ts.drop_last()[w] == t);
                }
                if ts.drop_last().contains(t) {
                    let w = choose|i: int| 0 <= i < ts.drop_last().len() && ts.drop_last()[i] == t;
                    assert(ts[w] == t);
                }
            }
        }
    }
}

/// After a note is re-scanned with `content`, it is listed under exactly the
/// targets of its wiki links.
pub proof fn law_updated_note_links(
    m: Map<Seq<char>, Seq<Seq<char>>>,
    rel: Seq<char>,
    content: Seq<char>,
    target: Seq<char>,
)
    ensures
        (update_spec(m, rel, Some(content)).dom().contains(target) && update_spec(m, rel, Some(content))[target].contains(rel)) <==> wiki_links(content).contains(target),
{
    law_removed_note_is_gone(m, rel);
    lemma_add_links_names_source(remove_source(m, rel), rel, wiki_links(content), target);
}

/// The list of `target` without `source`, or nothing.
pub open spec fn others(m: Map<Seq<char>, Seq<Seq<char>>>, target: Seq<char>, source: Seq<char>) -> Seq<Seq<char>> {
    if m.dom().contains(target) {
        without(m[target], source)
    } else {
        Seq::empty()
    }
}

proof fn lemma_add_links_others(
    m: Map<Seq<char>, Seq<Seq<char>>>,
    source: Seq<char>,
    ts: Seq<Seq<char>>,
    t: Seq<char>,
)
    ensures
        others(add_links(m, source, ts), t, source) == others(m, t, source),
    decreases ts.len(),
{
    if ts.len() > 0 {
        lemma_add_links_others(m, source, ts.drop_last(), t);
        let prev = add_links(m, source, ts.drop_last());
        if t == ts.last() {
            if prev.dom().contains(t) {
                assert(prev[t].push(source).drop_last() =~= prev[t]);
                assert(prev[t].push(source).last() == source);
                assert(without(prev[t].push(source), source) == without(prev[t], source));
            } else {
                assert(seq![source].drop_last() =~= Seq::<Seq<char>>::empty());
                assert(seq![source].last() == source);
                assert(without(seq![source], source) == without(Seq::<Seq<char>>::empty(), source));
                assert(without(seq![source], source) =~= Seq::<Seq<char>>::empty());
            }
        }
    }
}

proof fn lemma_without_twice(ss: Seq<Seq<char>>, s: Seq<char>)
    ensures
        without(without(ss, s), s) == without(ss, s),
{
    lemma_without_absent(ss, s);
    lemma_without_absent(without(ss, s), s);
}

/// Re-scanning a note leaves the links from every other note as they were.
pub proof fn law_update_keeps_other_notes(
    m: Map<Seq<char>, Seq<Seq<char>>>,
    rel: Seq<char>,
    content: Option<Seq<char>>,
    target: Seq<char>,
)
    requires
        lists_nonempty(m),
    ensures
        others(update_spec(m, rel, content), target, rel) == others(m, target, rel),
{
    let r = remove_source(m, rel);
    if m.dom().contains(target) {
        lemma_without_twice(m[target], rel);
    }
    assert(others(r, target, rel) == others(m, target, rel));
    match content {
        None => {},
        Some(c) => {
            lemma_add_links_others(r, rel, wiki_links(c), target);
        },
    }
}

/// Re-scanning a note that the index does not name yet gives the index that
/// a full rebuild with that note walked last would give.
pub proof fn law_incremental_update_matches_rebuild(
    root: Seq<char>,
    fs: Seq<(Seq<char>, bool, Option<Seq<char>>)>,
    path: Seq<char>,
    content: Seq<char>,
)
    requires
        is_note_path(relative_to(path, root)),
        source_absent(index_of_files(root, fs), relative_to(path, root)),
    ensures
        update_spec(index_of_files(root, fs), relative_to(path, root), Some(content)) == index_of_files(
            root,
            fs.push((path, true, Some(content))),
        ),
{
    let fs2 = fs.push((path, true, Some(content)));
    assert(fs2.drop_last() =~= fs);
    law_built_lists_nonempty(root, fs);
    law_remove_absent_source(index_of_files(root, fs), relative_to(path, root));
}


/// Re-scanning a note leaves every list of the index non-empty.
pub proof fn law_update_lists_nonempty(m: Map<Seq<char>, Seq<Seq<char>>>, rel: Seq<char>, content: Option<Seq<char>>)
    ensures
        lists_nonempty(update_spec(m, rel, content)),
{
    law_removed_note_is_gone(m, rel);
    match content {
        None => {},
        Some(c) => lemma_add_links_nonempty(remove_source(m, rel), rel, wiki_links(c)),
    }
}

/// The list of `k` in `m`, empty when `m` has none.
pub open spec fn list_of(m: Map<Seq<char>, Seq<Seq<char>>>, k: Seq<char>) -> Seq<Seq<char>> {
    if m.dom().contains(k) {
        m[k]
    } else {
        Seq::empty()
    }
}

/// How often `x` occurs in `ss`.
pub open spec fn occurrences(ss: Seq<Seq<char>>, x: Seq<char>) -> nat
    decreases ss.len(),
{
    if ss.len() == 0 {
        0
    } else {
        occurrences(ss.drop_last(), x) + if ss.last() == x {
            1nat
        } else {
            0nat
        }
    }
}

/// How often the file `f` of the walk of the vault at `root` links from `x`
/// to `k`: the number of links to `k` in it, when it is a readable note whose
/// path relative to the root is `x`.
pub open spec fn file_links_to(root: Seq<char>, f: (Seq<char>, bool, Option<Seq<char>>), k: Seq<char>, x: Seq<char>) -> nat {
    let rel = relative_to(f.0, root);
    if f.1 && is_note_path(rel) && f.2 is Some && rel == x {
        occurrences(wiki_links(f.2->0), k)
    } else {
        0
    }
}

/// How often the files of a walk link from `x` to `k`, all together.
pub open spec fn walk_links_to(
    root: Seq<char>,
    fs: Seq<(Seq<char>, bool, Option<Seq<char>>)>,
    k: Seq<char>,
    x: Seq<char>,
) -> nat
    decreases fs.len(),
{
    if fs.len() == 0 {
        0
    } else {
        walk_links_to(root, fs.drop_last(), k, x) + file_links_to(root, fs.last(), k, x)
    }
}

proof fn lemma_occurrences_push(ss: Seq<Seq<char>>, s: Seq<char>, x: Seq<char>)
    ensures
        occurrences(ss.push(s), x) == occurrences(ss, x) + if s == x {
            1nat
        } else {
            0nat
        },
{
    assert(ss.push(s).drop_last() =~= ss);
}

proof fn lemma_add_links_count(m: Map<Seq<char>, Seq<Seq<char>>>, s: Seq<char>, ts: Seq<Seq<char>>, k: Seq<char>, x: Seq<char>)
    ensures
        occurrences(list_of(add_links(m, s, ts), k), x) == occurrences(list_of(m, k), x) + if x == s {
            occurrences(ts, k)
        } else {
            0
        },
    decreases ts.len(),
{
    if ts.len() > 0 {
        lemma_add_links_count(m, s, ts.drop_last(), k, x);
        let prev = add_links(m, s, ts.drop_last());
        if ts.last() == k {
            lemma_occurrences_push(list_of(prev, k), s, x);
            assert(Seq::<Seq<char>>::empty().push(s) =~= seq![s]);
        }
    }
}

proof fn lemma_without_count(ss: Seq<Seq<char>>, s: Seq<char>, x: Seq<char>)
    ensures
        occurrences(without(ss, s), x) == if x == s {
            0
        } else {
            occurrences(ss, x)
        },
    decreases ss.len(),
{
    if ss.len() > 0 {
        lemma_without_count(ss.drop_last(), s, x);
        if ss.last() != s {
            lemma_occurrences_push(without(ss.drop_last(), s), ss.last(), x);
        }
    }
}

proof fn lemma_remove_source_count(m: Map<Seq<char>, Seq<Seq<char>>>, s: Seq<char>, k: Seq<char>, x: Seq<char>)
    ensures
        occurrences(list_of(remove_source(m, s), k), x) == if x == s {
            0
        } else {
            occurrences(list_of(m, k), x)
        },
{
    lemma_without_count(list_of(m, k), s, x);
    if m.dom().contains(k) && without(m[k], s).len() == 0 {
        assert(without(m[k], s) =~= Seq::<Seq<char>>::empty());
    }
    if !m.dom().contains(k) {
        assert(without(Seq::<Seq<char>>::empty(), s) =~= Seq::<Seq<char>>::empty());
    }
}

proof fn lemma_index_count(root: Seq<char>, fs: Seq<(Seq<char>, bool, Option<Seq<char>>)>, k: Seq<char>, x: Seq<char>)
    ensures
        occurrences(list_of(index_of_files(root, fs), k), x) == walk_links_to(root, fs, k, x),
    decreases fs.len(),
{
    if fs.len() > 0 {
        lemma_index_count(root, fs.drop_last(), k, x);
        let f = fs.last();
        let rel = relative_to(f.0, root);
        if f.1 && is_note_path(rel) && f.2 is Some {
            lemma_add_links_count(index_of_files(root, fs.drop_last()), rel, wiki_links(f.2->0), k, x);
        }
    }
}

proof fn lemma_walk_update(
    root: Seq<char>,
    fs: Seq<(Seq<char>, bool, Option<Seq<char>>)>,
    p: int,
    e: (Seq<char>, bool, Option<Seq<char>>),
    k: Seq<char>,
    x: Seq<char>,
)
    requires
        0 <= p < fs.len(),
    ensures
        walk_links_to(root, fs.update(p, e), k, x) + file_links_to(root, fs[p], k, x) == walk_links_to(root, fs, k, x)
            + file_links_to(root, e, k, x),
    decreases fs.len(),
{
    let fs2 = fs.update(p, e);
    if p == fs.len() - 1 {
        assert(fs2.drop_last() =~= fs.drop_last());
    } else {
        assert(fs2.drop_last() =~= fs.drop_last().update(p, e));
        lemma_walk_update(root, fs.drop_last(), p, e, k, x);
    }
}

proof fn lemma_walk_single_source(
    root: Seq<char>,
    fs: Seq<(Seq<char>, bool, Option<Seq<char>>)>,
    p: int,
    k: Seq<char>,
)
    requires
        0 <= p < fs.len(),
        forall|j: int| 0 <= j < fs.len() && j != p ==> relative_to(#[trigger] fs[j].0, root) != relative_to(fs[p].0, root),
    ensures
        walk_links_to(root, fs, k, relative_to(fs[p].0, root)) == file_links_to(root, fs[p], k, relative_to(fs[p].0, root)),
    decreases fs.len(),
{
    let x = relative_to(fs[p].0, root);
    if p == fs.len() - 1 {
        lemma_walk_none(root, fs.drop_last(), k, x);
    } else {
        assert(fs.drop_last()[p] == fs[p]);
        assert forall|j: int| 0 <= j < fs.drop_last().len() && j != p implies relative_to(#[trigger] fs.drop_last()[j].0, root)
            != relative_to(fs.drop_last()[p].0, root) by {
            assert(fs.drop_last()[j] == fs[j]);
        }
        lemma_walk_single_source(root, fs.drop_last(), p, k);
        assert(relative_to(fs[fs.len() - 1].0, root) != x);
    }
}

proof fn lemma_walk_none(root: Seq<char>, fs: Seq<(Seq<char>, bool, Option<Seq<char>>)>, k: Seq<char>, x: Seq<char>)
    requires
        forall|j: int| 0 <= j < fs.len() ==> relative_to(#[trigger] fs[j].0, root) != x,
    ensures
        walk_links_to(root, fs, k, x) == 0,
    decreases fs.len(),
{
    if fs.len() > 0 {
        assert forall|j: int| 0 <= j < fs.drop_last().len() implies relative_to(#[trigger] fs.drop_last()[j].0, root) != x by {
            assert(fs.drop_last()[j] == fs[j]);
        }
        lemma_walk_none(root, fs.drop_last(), k, x);
        assert(relative_to(fs[fs.len() - 1].0, root) != x);
    }
}

proof fn lemma_occurrences_multiset(ss: Seq<Seq<char>>, x: Seq<char>)
    ensures
        occurrences(ss, x) == ss.to_multiset().count(x),
    decreases ss.len(),
{
    broadcast use vstd::seq_lib::group_to_multiset_ensures;
    if ss.len() == 0 {
        assert(!ss.contains(x));
    } else {
        lemma_occurrences_multiset(ss.drop_last(), x);
        assert(ss.drop_last().push(ss.last()) =~= ss);
    }
}

/// Re-scanning a note whose content changed gives the index that a full
/// rebuild with the new content gives, up to the order of each list: the
/// same targets, and for each target the same linking notes, each as often.
/// `fs` is the walk the index was built from, its `p`-th file is the note,
/// and no other file of the walk has the same path below the root;
/// `content` is `None` when the note can no longer be read (or is gone),
/// which the rebuild meets as a file without text.
pub proof fn law_changed_note_update_matches_rebuild(
    root: Seq<char>,
    fs: Seq<(Seq<char>, bool, Option<Seq<char>>)>,
    p: int,
    content: Option<Seq<char>>,
)
    requires
        0 <= p < fs.len(),
        fs[p].1,
        is_note_path(relative_to(fs[p].0, root)),
        forall|j: int| 0 <= j < fs.len() && j != p ==> relative_to(#[trigger] fs[j].0, root) != relative_to(fs[p].0, root),
    ensures
        ({
            let rel = relative_to(fs[p].0, root);
            let updated = update_spec(index_of_files(root, fs), rel, content);
            let rebuilt = index_of_files(root, fs.update(p, (fs[p].0, true, content)));
            &&& updated.dom() == rebuilt.dom()
            &&& forall|k: Seq<char>| #[trigger] updated.dom().contains(k) ==> updated[k].to_multiset() == rebuilt[k].to_multiset()
        }),
{
    let rel = relative_to(fs[p].0, root);
    let e = (fs[p].0, true, content);
    let fs2 = fs.update(p, e);
    let updated = update_spec(index_of_files(root, fs), rel, content);
    let rebuilt = index_of_files(root, fs2);
    assert(fs2[p] == e);
    assert forall|j: int| 0 <= j < fs2.len() && j != p implies relative_to(#[trigger] fs2[j].0, root) != relative_to(fs2[p].0, root) by {
        assert(fs2[j] == fs[j]);
    }
    assert forall|k: Seq<char>, x: Seq<char>| #[trigger] occurrences(list_of(updated, k), x) == #[trigger] occurrences(list_of(rebuilt, k), x) by {
        match content {
            Some(c) => lemma_add_links_count(remove_source(index_of_files(root, fs), rel), rel, wiki_links(c), k, x),
            None => {},
        }
        lemma_remove_source_count(index_of_files(root, fs), rel, k, x);
        lemma_index_count(root, fs, k, x);
        lemma_index_count(root, fs2, k, x);
        lemma_walk_update(root, fs, p, e, k, x);
        if x == rel {
            lemma_walk_single_source(root, fs2, p, k);
        } else {
            assert(file_links_to(root, fs[p], k, x) == 0);
            assert(file_links_to(root, e, k, x) == 0);
        }
    }
    law_update_lists_nonempty(index_of_files(root, fs), rel, content);
    law_built_lists_nonempty(root, fs2);
    assert forall|k: Seq<char>| #[trigger] updated.dom().contains(k) implies rebuilt.dom().contains(k) by {
        let l = updated[k];
        lemma_occurrences_push(l.drop_last(), l.last(), l.last());
        assert(l.drop_last().push(l.last()) =~= l);
        assert(occurrences(list_of(updated, k), l.last()) == occurrences(list_of(rebuilt, k), l.last()));
    }
    assert forall|k: Seq<char>| #[trigger] rebuilt.dom().contains(k) implies updated.dom().contains(k) by {
        let l = rebuilt[k];
        lemma_occurrences_push(l.drop_last(), l.last(), l.last());
        assert(l.drop_last().push(l.last()) =~= l);
        assert(occurrences(list_of(updated, k), l.last()) == occurrences(list_of(rebuilt, k), l.last()));
    }
    assert(updated.dom() =~= rebuilt.dom());
    assert forall|k: Seq<char>| #[trigger] updated.dom().contains(k) implies updated[k].to_multiset() == rebuilt[k].to_multiset() by {
        assert forall|x: Seq<char>| updated[k].to_multiset().count(x) == rebuilt[k].to_multiset().count(x) by {
            lemma_occurrences_multiset(updated[k], x);
            lemma_occurrences_multiset(rebuilt[k], x);
            assert(occurrences(list_of(updated, k), x) == occurrences(list_of(rebuilt, k), x));
        }
        assert(updated[k].to_multiset() =~= rebuilt[k].to_multiset());
    }
}

} // verus!
