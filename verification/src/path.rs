//! Vault paths: the components of a '/'-separated path, joining, lexical
//! normalisation, prefix tests, and the safe resolution of a note path
//! inside the vault root.
use vstd::prelude::*;
use vstd::string::StrSliceExecFns;
use vstd::string::StringExecFns;
use crate::text::chars_of;

verus! {

/// One component of a path, as a mathematical value.
pub enum PathPart {
    Root,
    Cur,
    Parent,
    Name(Seq<char>),
}

/// One component of a path.
pub enum Component {
    RootDir,
    CurDir,
    ParentDir,
    Normal(String),
}

impl View for Component {
    type V = PathPart;

    open spec fn view(&self) -> PathPart {
        match self {
            Component::RootDir => PathPart::Root,
            Component::CurDir => PathPart::Cur,
            Component::ParentDir => PathPart::Parent,
            Component::Normal(n) => PathPart::Name(n@),
        }
    }
}

/// The mathematical components of a sequence of components.
pub open spec fn parts_of(v: Seq<Component>) -> Seq<PathPart> {
    v.map_values(|c: Component| c@)
}

/// Splitting `s` at every '/' from the left: the segments completed so far
/// and the segment still open.
pub open spec fn seg_state(s: Seq<char>) -> (Seq<Seq<char>>, Seq<char>)
    decreases s.len(),
{
    if s.len() == 0 {
        (Seq::empty(), Seq::empty())
    } else {
        let prev = seg_state(s.drop_last());
        if s.last() == '/' {
            (prev.0.push(prev.1), Seq::empty())
        } else {
            (prev.0, prev.1.push(s.last()))
        }
    }
}

/// The pieces of `s` between its '/' separators (n separators give n + 1 pieces).
pub open spec fn segments(s: Seq<char>) -> Seq<Seq<char>> {
    seg_state(s).0.push(seg_state(s).1)
}

/// What a piece between separators stands for: nothing when it is empty or
/// ".", the parent for "..", a name otherwise.
pub open spec fn classify_segment(seg: Seq<char>) -> Option<PathPart> {
    if seg.len() == 0 || seg == seq!['.'] {
        None
    } else if seg == seq!['.', '.'] {
        Some(PathPart::Parent)
    } else {
        Some(PathPart::Name(seg))
    }
}

pub open spec fn has_root(s: Seq<char>) -> bool {
    s.len() > 0 && s[0] == '/'
}

/// A relative path that starts with "." standing alone ("." or "./...").
pub open spec fn has_cur_dir_prefix(s: Seq<char>) -> bool {
    !has_root(s) && s.len() > 0 && s[0] == '.' && (s.len() == 1 || s[1] == '/')
}

/// The components of a path: the root if it starts with '/', the current
/// directory if it starts with "." alone, then one component for each piece
/// between separators that is neither empty nor ".".
pub open spec fn components(s: Seq<char>) -> Seq<PathPart> {
    let head: Seq<PathPart> = if has_root(s) {
        seq![PathPart::Root]
    } else if has_cur_dir_prefix(s) {
        seq![PathPart::Cur]
    } else {
        Seq::empty()
    };
    head + segments(s).filter_map(|seg: Seq<char>| classify_segment(seg))
}

proof fn lemma_push_filter_map(a: Seq<Seq<char>>, x: Seq<char>)
    ensures
        a.push(x).filter_map(|seg: Seq<char>| classify_segment(seg)) == match classify_segment(x) {
            Some(p) => a.filter_map(|seg: Seq<char>| classify_segment(seg)).push(p),
            None => a.filter_map(|seg: Seq<char>| classify_segment(seg)),
        },
{
    assert(a.push(x).drop_last() =~= a);
    match classify_segment(x) {
        Some(p) => {
            assert(a.filter_map(|seg: Seq<char>| classify_segment(seg)) + seq![p]
                =~= a.filter_map(|seg: Seq<char>| classify_segment(seg)).push(p));
        },
        None => {},
    }
}

/// The component that the piece `cs[start..end]` of `s` stands for, if any.
fn classify_piece(s: &str, cs: &Vec<char>, start: usize, end: usize) -> (r: Option<Component>)
    requires
        cs@ == s@,
        start <= end <= cs.len(),
    ensures
        match classify_segment(cs@.subrange(start as int, end as int)) {
            Some(p) => r is Some && r->0@ == p,
            None => r is None,
        },
{
    let ghost seg = cs@.subrange(start as int, end as int);
    let n = end - start;
    if n == 0 {
        None
    } else if n == 1 && cs[start] == '.' {
        assert(seg =~= seq!['.']);
        None
    } else if n == 2 && cs[start] == '.' && cs[start + 1] == '.' {
        assert(seg =~= seq!['.', '.']);
        Some(Component::ParentDir)
    } else {
        assert(seg != seq!['.']) by {
            assert(seq!['.'].len() == 1);
            if n == 1 {
                assert(seg[0] == cs@[start as int]);
                assert(seq!['.'][0] == '.');
            }
        }
        assert(seg != seq!['.', '.']) by {
            assert(seq!['.', '.'].len() == 2);
            if n == 2 {
                assert(seg[0] == cs@[start as int]);
                assert(seg[1] == cs@[start + 1]);
                assert(seq!['.', '.'][0] == '.');
                assert(seq!['.', '.'][1] == '.');
            }
        }
        let name = s.substring_char(start, end).to_owned();
        Some(Component::Normal(name))
    }
}

/// The components of the path `s`.
pub fn path_components(s: &str) -> (r: Vec<Component>)
    ensures
        parts_of(r@) == components(s@),
{
    let cs = chars_of(s);
    let len = cs.len();
    let mut out: Vec<Component> = Vec::new();
    if len > 0 && cs[0] == '/' {
        out.push(Component::RootDir);
    } else if len > 0 && cs[0] == '.' && (len == 1 || cs[1] == '/') {
        out.push(Component::CurDir);
    }
    let ghost head = parts_of(out@);
    assert(head =~= if has_root(s@) {
        seq![PathPart::Root]
    } else if has_cur_dir_prefix(s@) {
        seq![PathPart::Cur]
    } else {
        Seq::<PathPart>::empty()
    });
    let mut start: usize = 0;
    let mut i: usize = 0;
    assert(cs@.take(0) =~= Seq::<char>::empty());
    while i < len
        invariant
            len == cs.len(),
            cs@ == s@,
            start <= i <= len,
            seg_state(cs@.take(i as int)).1 == cs@.subrange(start as int, i as int),
            parts_of(out@) == head + seg_state(cs@.take(i as int)).0.filter_map(
                |seg: Seq<char>| classify_segment(seg),
            ),
        decreases len - i,
    {
        let ghost prev = seg_state(cs@.take(i as int));
        let ghost before = out@;
        assert(cs@.take(i + 1).drop_last() =~= cs@.take(i as int));
        assert(cs@.take(i + 1).last() == cs@[i as int]);
        if cs[i] == '/' {
            let piece = classify_piece(s, &cs, start, i);
            proof {
                lemma_push_filter_map(prev.0, prev.1);
            }
            match piece {
                Some(c) => {
                    out.push(c);
                    assert(parts_of(out@) =~= parts_of(before).push(c@));
                },
                None => {},
            }
            start = i + 1;
            assert(cs@.subrange(start as int, (i + 1) as int) =~= Seq::<char>::empty());
        } else {
            assert(cs@.subrange(start as int, (i + 1) as int) =~= prev.1.push(cs@[i as int]));
        }
        i = i + 1;
    }
    assert(cs@.take(len as int) =~= cs@);
    let ghost fin = seg_state(cs@);
    let ghost before = out@;
    let piece = classify_piece(s, &cs, start, len);
    proof {
        lemma_push_filter_map(fin.0, fin.1);
    }
    match piece {
        Some(c) => {
            out.push(c);
            assert(parts_of(out@) =~= parts_of(before).push(c@));
        },
        None => {},
    }
    proof {
        assert(head + fin.0.push(fin.1).filter_map(|seg: Seq<char>| classify_segment(seg))
            =~= parts_of(out@));
    }
    out
}

/// `rel` placed under `base`: an absolute `rel` stands alone, otherwise
/// the two are joined by exactly one separator unless `base` is empty or
/// already ends with one.
pub open spec fn join_spec(base: Seq<char>, rel: Seq<char>) -> Seq<char> {
    if has_root(rel) {
        rel
    } else if base.len() == 0 || base.last() == '/' {
        base + rel
    } else {
        base + seq!['/'] + rel
    }
}

/// `rel` placed under `base` (see `join_spec`).
pub fn join_path(base: &str, rel: &str) -> (r: String)
    ensures
        r@ == join_spec(base@, rel@),
{
    let bs = chars_of(base);
    let rs = chars_of(rel);
    if rs.len() > 0 && rs[0] == '/' {
        return rel.to_owned();
    }
    let mut out = base.to_owned();
    if bs.len() > 0 && bs[bs.len() - 1] != '/' {
        let sep = "/";
        proof {
            reveal_strlit("/");
        }
        out.append(sep);
    }
    out.append(rel);
    out
}

/// Lexical normalisation: "." is dropped, ".." removes the last name
/// (never the root), a root starts over, names are kept.
pub open spec fn normalize(ps: Seq<PathPart>) -> Seq<PathPart>
    decreases ps.len(),
{
    if ps.len() == 0 {
        Seq::empty()
    } else {
        let pre = normalize(ps.drop_last());
        match ps.last() {
            PathPart::Parent => if pre.len() > 0 && pre.last() is Name {
                pre.drop_last()
            } else {
                pre
            },
            PathPart::Cur => pre,
            PathPart::Root => seq![PathPart::Root],
            PathPart::Name(n) => pre.push(PathPart::Name(n)),
        }
    }
}

/// `base` is a leading run of the components of `p`.
pub open spec fn starts_with_parts(p: Seq<PathPart>, base: Seq<PathPart>) -> bool {
    base.len() <= p.len() && p.take(base.len() as int) == base
}

/// Whether two components are the same.
pub fn same_component(a: &Component, b: &Component) -> (r: bool)
    ensures
        r == (a@ == b@),
{
    match (a, b) {
        (Component::RootDir, Component::RootDir) => true,
        (Component::CurDir, Component::CurDir) => true,
        (Component::ParentDir, Component::ParentDir) => true,
        (Component::Normal(x), Component::Normal(y)) => {
            let same = x.eq(y);
            proof {
                if !same {
                    assert(a@->Name_0 != b@->Name_0);
                }
            }
            same
        },
        _ => false,
    }
}

/// The lexical normalisation of a list of components.
pub fn normalize_components(ps: &Vec<Component>) -> (r: Vec<Component>)
    ensures
        parts_of(r@) == normalize(parts_of(ps@)),
{
    let mut out: Vec<Component> = Vec::new();
    let mut i: usize = 0;
    assert(parts_of(ps@).take(0) =~= Seq::<PathPart>::empty());
    while i < ps.len()
        invariant
            i <= ps.len(),
            parts_of(out@) == normalize(parts_of(ps@).take(i as int)),
        decreases ps.len() - i,
    {
        let ghost pre = parts_of(out@);
        let ghost before = out@;
        assert(parts_of(ps@).take(i + 1).drop_last() =~= parts_of(ps@).take(i as int));
        assert(parts_of(ps@).take(i + 1).last() == ps@[i as int]@);
        match &ps[i] {
            Component::ParentDir => {
                let n = out.len();
                if n > 0 {
                    match &out[n - 1] {
                        Component::Normal(_) => {
                            out.pop();
                            assert(parts_of(out@) =~= pre.drop_last());
                        },
                        _ => {},
                    }
                }
            },
            Component::CurDir => {},
            Component::RootDir => {
                out = Vec::new();
                out.push(Component::RootDir);
                assert(parts_of(out@) =~= seq![PathPart::Root]);
            },
            Component::Normal(name) => {
                out.push(Component::Normal(name.clone()));
                assert(parts_of(out@) =~= pre.push(ps@[i as int]@));
            },
        }
        i = i + 1;
    }
    assert(parts_of(ps@).take(ps.len() as int) =~= parts_of(ps@));
    out
}

/// Whether the components `base` are a leading run of the components `p`.
pub fn components_start_with(p: &Vec<Component>, base: &Vec<Component>) -> (r: bool)
    ensures
        r == starts_with_parts(parts_of(p@), parts_of(base@)),
{
    if base.len() > p.len() {
        return false;
    }
    let mut i: usize = 0;
    while i < base.len()
        invariant
            base.len() <= p.len(),
            i <= base.len(),
            forall|j: int| 0 <= j < i ==> p@[j]@ == base@[j]@,
        decreases base.len() - i,
    {
        if !same_component(&p[i], &base[i]) {
            assert(parts_of(p@).take(base.len() as int)[i as int] != parts_of(base@)[i as int]);
            return false;
        }
        i = i + 1;
    }
    assert(parts_of(p@).take(base.len() as int) =~= parts_of(base@));
    true
}

/// Whether the path `p` starts with the path `base`, component by component.
pub fn path_starts_with(p: &str, base: &str) -> (r: bool)
    ensures
        r == starts_with_parts(components(p@), components(base@)),
{
    let pc = path_components(p);
    let bc = path_components(base);
    components_start_with(&pc, &bc)
}

/// What the file system reported about the joined path.
pub enum PathProbe {
    /// Nothing exists at the path.
    Missing,
    /// Something exists; this is its canonical form.
    Canonical(String),
    /// Something exists but its canonical form could not be obtained; the error text.
    CanonicalizeFailed(String),
}

/// The error text for a vault root that cannot be canonicalised.
pub open spec fn invalid_vault_text() -> Seq<char> {
    "Invalid vault path"@
}

/// The error text for a path that leaves the vault.
pub open spec fn traversal_text() -> Seq<char> {
    "Path traversal detected"@
}

/// The outcome of resolving `rel` in the canonical vault root `root`.
pub open spec fn resolve_spec(root: Option<Seq<char>>, rel: Seq<char>, probe: PathProbe) -> Result<
    Seq<char>,
    Seq<char>,
> {
    match root {
        None => Err(invalid_vault_text()),
        Some(root) => match probe {
            PathProbe::Canonical(c) => if starts_with_parts(components(c@), components(root)) {
                Ok(c@)
            } else {
                Err(traversal_text())
            },
            PathProbe::CanonicalizeFailed(e) => Err(e@),
            PathProbe::Missing => {
                let joined = join_spec(root, rel);
                if starts_with_parts(normalize(components(joined)), components(root)) {
                    Ok(joined)
                } else {
                    Err(traversal_text())
                }
            },
        },
    }
}

/// The result as plain values.
pub open spec fn result_view(r: Result<String, String>) -> Result<Seq<char>, Seq<char>> {
    match r {
        Ok(s) => Ok(s@),
        Err(e) => Err(e@),
    }
}

/// Resolves `rel_path` inside the vault with path traversal protection.
/// `canonical_root` is the canonical vault root (`None` when it could not be
/// canonicalised) and `probe` is what the file system reports for
/// `join_path(root, rel_path)`. An existing path is accepted when its
/// canonical form lies in the root, and that form is returned; a missing
/// path is accepted when its lexical normalisation lies in the root, and the
/// joined path is returned. Paths are read with '/' as the only separator;
/// where the platform separates with a backslash, callers turn it into '/' first
/// (see `backslashes_to_slashes`), so that ".." between backslashes is still a parent step.
pub fn resolve_safe_path(canonical_root: Option<&str>, rel_path: &str, probe: &PathProbe) -> (r:
    Result<String, String>)
    ensures
        result_view(r) == resolve_spec(
            match canonical_root {
                Some(x) => Some(x@),
                None => None,
            },
            rel_path@,
            *probe,
        ),
{
    let root = match canonical_root {
        None => {
            return Err("Invalid vault path".to_string());
        },
        Some(root) => root,
    };
    let root_parts = path_components(root);
    match probe {
        PathProbe::Canonical(c) => {
            let cp = path_components(c.as_str());
            if components_start_with(&cp, &root_parts) {
                Ok(c.clone())
            } else {
                Err("Path traversal detected".to_string())
            }
        },
        PathProbe::CanonicalizeFailed(e) => Err(e.clone()),
        PathProbe::Missing => {
            let joined = join_path(root, rel_path);
            let jp = path_components(joined.as_str());
            let normal = normalize_components(&jp);
            if components_start_with(&normal, &root_parts) {
                Ok(joined)
            } else {
                Err("Path traversal detected".to_string())
            }
        },
    }
}

/// A sequence of components in normal form: a root, if any, comes first,
/// and there is neither "." nor "..".
pub open spec fn is_normal_form(ps: Seq<PathPart>) -> bool {
    forall|i: int|
        0 <= i < ps.len() ==> match #[trigger] ps[i] {
            PathPart::Root => i == 0,
            PathPart::Name(_) => true,
            _ => false,
        }
}

/// Lexical normalisation always yields a path in normal form.
pub proof fn law_normalize_is_normal_form(ps: Seq<PathPart>)
    ensures
        is_normal_form(normalize(ps)),
    decreases ps.len(),
{
    if ps.len() > 0 {
        law_normalize_is_normal_form(ps.drop_last());
        let pre = normalize(ps.drop_last());
        match ps.last() {
            PathPart::Parent => {
                if pre.len() > 0 && pre.last() is Name {
                    assert forall|i: int| 0 <= i < pre.drop_last().len() implies match #[trigger] pre.drop_last()[i] {
                        PathPart::Root => i == 0,
                        PathPart::Name(_) => true,
                        _ => false,
                    } by {
                        assert(pre.drop_last()[i] == pre[i]);
                    }
                }
            },
            PathPart::Name(n) => {
                assert forall|i: int| 0 <= i < pre.push(PathPart::Name(n)).len() implies match #[trigger] pre.push(PathPart::Name(n))[i] {
                    PathPart::Root => i == 0,
                    PathPart::Name(_) => true,
                    _ => false,
                } by {
                    if i < pre.len() {
                        assert(pre.push(PathPart::Name(n))[i] == pre[i]);
                    }
                }
            },
            _ => {},
        }
    }
}

/// A path in normal form is left unchanged by normalisation.
pub proof fn law_normalize_fixes_normal_form(ps: Seq<PathPart>)
    requires
        is_normal_form(ps),
    ensures
        normalize(ps) == ps,
    decreases ps.len(),
{
    if ps.len() > 0 {
        let init = ps.drop_last();
        assert forall|i: int| 0 <= i < init.len() implies match #[trigger] init[i] {
            PathPart::Root => i == 0,
            PathPart::Name(_) => true,
            _ => false,
        } by {
            assert(init[i] == ps[i]);
        }
        law_normalize_fixes_normal_form(init);
        let last_i = ps.len() - 1;
        assert(ps.last() == ps[last_i]);
        match ps.last() {
            PathPart::Root => {
                assert(last_i == 0);
                assert(ps =~= seq![PathPart::Root]);
            },
            PathPart::Name(n) => {
                assert(init.push(PathPart::Name(n)) =~= ps);
            },
            _ => {},
        }
    }
}

/// Normalisation is idempotent.
pub proof fn law_normalize_idempotent(ps: Seq<PathPart>)
    ensures
        normalize(normalize(ps)) == normalize(ps),
{
    law_normalize_is_normal_form(ps);
    law_normalize_fixes_normal_form(normalize(ps));
}

proof fn lemma_seg_state_after_separator(a: Seq<char>, b: Seq<char>)
    ensures
        seg_state(a + seq!['/'] + b) == (segments(a) + seg_state(b).0, seg_state(b).1),
    decreases b.len(),
{
    if b.len() == 0 {
        assert(a + seq!['/'] + b =~= a.push('/'));
        assert(a.push('/').drop_last() =~= a);
        assert(segments(a) + seg_state(b).0 =~= segments(a));
    } else {
        lemma_seg_state_after_separator(a, b.drop_last());
        assert((a + seq!['/'] + b).drop_last() =~= a + seq!['/'] + b.drop_last());
        assert((a + seq!['/'] + b).last() == b.last());
        let pb = seg_state(b.drop_last());
        if b.last() == '/' {
            assert(segments(a) + pb.0.push(pb.1) =~= (segments(a) + pb.0).push(pb.1));
        }
    }
}

/// Splitting at a separator splits the pieces.
proof fn lemma_segments_after_separator(a: Seq<char>, b: Seq<char>)
    ensures
        segments(a + seq!['/'] + b) == segments(a) + segments(b),
{
    lemma_seg_state_after_separator(a, b);
    assert((segments(a) + seg_state(b).0).push(seg_state(b).1) =~= segments(a) + segments(b));
}

proof fn lemma_filter_map_append(a: Seq<Seq<char>>, b: Seq<Seq<char>>)
    ensures
        (a + b).filter_map(|seg: Seq<char>| classify_segment(seg)) == a.filter_map(
            |seg: Seq<char>| classify_segment(seg),
        ) + b.filter_map(|seg: Seq<char>| classify_segment(seg)),
    decreases b.len(),
{
    if b.len() == 0 {
        assert(a + b =~= a);
        assert(a.filter_map(|seg: Seq<char>| classify_segment(seg)) + b.filter_map(
            |seg: Seq<char>| classify_segment(seg),
        ) =~= a.filter_map(|seg: Seq<char>| classify_segment(seg)));
    } else {
        lemma_filter_map_append(a, b.drop_last());
        assert((a + b).drop_last() =~= a + b.drop_last());
        assert((a + b).last() == b.last());
        let fa = a.filter_map(|seg: Seq<char>| classify_segment(seg));
        let fb = b.drop_last().filter_map(|seg: Seq<char>| classify_segment(seg));
        match classify_segment(b.last()) {
            Some(p) => {
                assert(fa + fb + seq![p] =~= fa + (fb + seq![p]));
            },
            None => {},
        }
    }
}

/// The pieces of a path that ends with a separator, up to that separator.
proof fn lemma_segments_trailing_separator(a: Seq<char>)
    ensures
        segments(a.push('/')) == segments(a) + seq![Seq::<char>::empty()],
{
    assert(a.push('/').drop_last() =~= a);
    assert(segments(a).push(Seq::<char>::empty()) =~= segments(a) + seq![Seq::<char>::empty()]);
}

/// The name parts contributed by the pieces of a path.
pub open spec fn body_parts(s: Seq<char>) -> Seq<PathPart> {
    segments(s).filter_map(|seg: Seq<char>| classify_segment(seg))
}

proof fn lemma_components_of_join(root: Seq<char>, rel: Seq<char>)
    requires
        has_root(root),
        !has_root(rel),
    ensures
        components(join_spec(root, rel)) == components(root) + body_parts(rel),
{
    let j = join_spec(root, rel);
    if root.last() == '/' {
        let r0 = root.drop_last();
        assert(root =~= r0.push('/'));
        assert(j =~= r0 + seq!['/'] + rel);
        lemma_segments_after_separator(r0, rel);
        lemma_segments_trailing_separator(r0);
        lemma_filter_map_append(segments(r0), segments(rel));
        lemma_filter_map_append(segments(r0), seq![Seq::<char>::empty()]);
        reveal_with_fuel(Seq::filter_map, 2);
        assert(seq![Seq::<char>::empty()].drop_last() =~= Seq::<Seq<char>>::empty());
        assert(seq![Seq::<char>::empty()].filter_map(|seg: Seq<char>| classify_segment(seg))
            =~= Seq::<PathPart>::empty());
        assert(j[0] == root[0]);
    } else {
        assert(j =~= root + seq!['/'] + rel);
        lemma_segments_after_separator(root, rel);
        lemma_filter_map_append(segments(root), segments(rel));
        assert(j[0] == root[0]);
    }
    assert(components(j) =~= components(root) + body_parts(rel));
}

/// Only names and no ".." among the parts.
pub open spec fn all_names(ps: Seq<PathPart>) -> bool {
    forall|i: int| 0 <= i < ps.len() ==> #[trigger] ps[i] is Name
}

proof fn lemma_normalize_append_names(a: Seq<PathPart>, b: Seq<PathPart>)
    requires
        all_names(b),
    ensures
        normalize(a + b) == normalize(a) + b,
    decreases b.len(),
{
    if b.len() == 0 {
        assert(a + b =~= a);
        assert(normalize(a) + b =~= normalize(a));
    } else {
        assert(all_names(b.drop_last())) by {
            assert forall|i: int| 0 <= i < b.drop_last().len() implies #[trigger] b.drop_last()[i] is Name by {
                assert(b.drop_last()[i] == b[i]);
            }
        }
        lemma_normalize_append_names(a, b.drop_last());
        assert((a + b).drop_last() =~= a + b.drop_last());
        assert((a + b).last() == b.last());
        assert(b[b.len() - 1] is Name);
        assert(normalize(a) + b =~= (normalize(a) + b.drop_last()).push(b.last()));
    }
}

proof fn lemma_body_parts_names(rel: Seq<char>)
    requires
        forall|i: int| 0 <= i < components(rel).len() ==> #[trigger] components(rel)[i] != PathPart::Parent,
    ensures
        all_names(body_parts(rel)),
{
    let head: Seq<PathPart> = if has_root(rel) {
        seq![PathPart::Root]
    } else if has_cur_dir_prefix(rel) {
        seq![PathPart::Cur]
    } else {
        Seq::empty()
    };
    assert(components(rel) == head + body_parts(rel));
    assert forall|i: int| 0 <= i < body_parts(rel).len() implies #[trigger] body_parts(rel)[i] is Name by {
        assert(components(rel)[head.len() + i] == body_parts(rel)[i]);
        segments(rel).lemma_filter_map_contains(|seg: Seq<char>| classify_segment(seg), body_parts(rel)[i]);
        assert(body_parts(rel).contains(body_parts(rel)[i]));
    }
}

/// A note path that is relative and has no ".." component always resolves,
/// when nothing exists there yet, to its place under a vault root that is
/// absolute and in normal form (as a canonical path is).
pub proof fn law_plain_relative_paths_resolve(root: Seq<char>, rel: Seq<char>)
    requires
        has_root(root),
        is_normal_form(components(root)),
        !has_root(rel),
        forall|i: int| 0 <= i < components(rel).len() ==> #[trigger] components(rel)[i] != PathPart::Parent,
    ensures
        resolve_spec(Some(root), rel, PathProbe::Missing) == Ok::<Seq<char>, Seq<char>>(join_spec(root, rel)),
{
    lemma_components_of_join(root, rel);
    lemma_body_parts_names(rel);
    lemma_normalize_append_names(components(root), body_parts(rel));
    law_normalize_fixes_normal_form(components(root));
    let n = normalize(components(join_spec(root, rel)));
    assert(n.take(components(root).len() as int) =~= components(root));
}

/// Whatever `resolve_safe_path` accepts lies in the vault: the canonical form
/// of an existing path, or the normalisation of a missing one, starts with
/// the components of the root.
pub proof fn law_resolved_paths_stay_in_vault(root: Seq<char>, rel: Seq<char>, probe: PathProbe)
    requires
        resolve_spec(Some(root), rel, probe) is Ok,
    ensures
        match probe {
            PathProbe::Missing => starts_with_parts(
                normalize(components(resolve_spec(Some(root), rel, probe)->Ok_0)),
                components(root),
            ),
            _ => starts_with_parts(
                components(resolve_spec(Some(root), rel, probe)->Ok_0),
                components(root),
            ),
        },
{
}

/// The last component of `p` when it is a name.
pub open spec fn file_name(p: Seq<char>) -> Option<Seq<char>> {
    let ps = components(p);
    if ps.len() > 0 && ps.last() is Name {
        Some(ps.last()->Name_0)
    } else {
        None
    }
}

/// The position of the last '.' in `n`, or -1.
pub open spec fn last_dot(n: Seq<char>) -> int
    decreases n.len(),
{
    if n.len() == 0 {
        -1
    } else if n.last() == '.' {
        n.len() - 1
    } else {
        last_dot(n.drop_last())
    }
}

/// The stem of a file name: what precedes its last '.', unless that '.'
/// is missing or comes first.
pub open spec fn stem_of_name(n: Seq<char>) -> Seq<char> {
    let k = last_dot(n);
    if k <= 0 {
        n
    } else {
        n.subrange(0, k)
    }
}

/// The extension of a file name: what follows its last '.', unless that
/// '.' is missing or comes first.
pub open spec fn extension_of_name(n: Seq<char>) -> Option<Seq<char>> {
    let k = last_dot(n);
    if k <= 0 {
        None
    } else {
        Some(n.subrange(k + 1, n.len() as int))
    }
}

/// The stem of the file name of `p`.
pub open spec fn file_stem(p: Seq<char>) -> Option<Seq<char>> {
    match file_name(p) {
        Some(n) => Some(stem_of_name(n)),
        None => None,
    }
}

/// The text of a component.
pub open spec fn part_text(p: PathPart) -> Seq<char> {
    match p {
        PathPart::Root => seq!['/'],
        PathPart::Cur => seq!['.'],
        PathPart::Parent => seq!['.', '.'],
        PathPart::Name(n) => n,
    }
}

/// A component whose text starts with '.'.
pub open spec fn is_hidden_part(p: PathPart) -> bool {
    match p {
        PathPart::Root => false,
        PathPart::Cur => true,
        PathPart::Parent => true,
        PathPart::Name(n) => n.len() > 0 && n[0] == '.',
    }
}

/// A markdown note of the vault: the file name has the extension "md" and
/// no component of the path starts with '.'.
pub open spec fn is_note_path(p: Seq<char>) -> bool {
    &&& file_name(p) matches Some(n) && extension_of_name(n) == Some(seq!['m', 'd'])
    &&& forall|i: int| 0 <= i < components(p).len() ==> !is_hidden_part(#[trigger] components(p)[i])
}

/// The path made of the components `ps`, one after the other.
pub open spec fn join_parts(ps: Seq<PathPart>) -> Seq<char>
    decreases ps.len(),
{
    if ps.len() == 0 {
        Seq::empty()
    } else {
        join_spec(join_parts(ps.drop_last()), part_text(ps.last()))
    }
}

/// What is left of `p` after the leading components of `base`.
pub open spec fn strip_prefix_spec(p: Seq<char>, base: Seq<char>) -> Option<Seq<char>> {
    if starts_with_parts(components(p), components(base)) {
        Some(join_parts(components(p).skip(components(base).len() as int)))
    } else {
        None
    }
}

/// `p` relative to `base` when it lies under it, `p` itself otherwise.
pub open spec fn relative_to(p: Seq<char>, base: Seq<char>) -> Seq<char> {
    match strip_prefix_spec(p, base) {
        Some(r) => r,
        None => p,
    }
}

/// The text of a component.
fn component_text(c: &Component) -> (r: String)
    ensures
        r@ == part_text(c@),
{
    match c {
        Component::RootDir => {
            proof {
                reveal_strlit("/");
            }
            "/".to_owned()
        },
        Component::CurDir => {
            proof {
                reveal_strlit(".");
            }
            ".".to_owned()
        },
        Component::ParentDir => {
            proof {
                reveal_strlit("..");
            }
            "..".to_owned()
        },
        Component::Normal(n) => n.clone(),
    }
}

/// The path made of the components `ps[from..]`.
fn join_components_from(ps: &Vec<Component>, from: usize) -> (r: String)
    requires
        from <= ps.len(),
    ensures
        r@ == join_parts(parts_of(ps@).skip(from as int)),
{
    let mut out = String::new();
    let mut i = from;
    assert(parts_of(ps@).skip(from as int).take(0) =~= Seq::<PathPart>::empty());
    while i < ps.len()
        invariant
            from <= i <= ps.len(),
            out@ == join_parts(parts_of(ps@).skip(from as int).take(i - from)),
        decreases ps.len() - i,
    {
        let t = component_text(&ps[i]);
        out = join_path(out.as_str(), t.as_str());
        let ghost tail = parts_of(ps@).skip(from as int);
        assert(tail.take(i + 1 - from).drop_last() =~= tail.take(i - from));
        assert(tail.take(i + 1 - from).last() == ps@[i as int]@);
        i = i + 1;
    }
    assert(parts_of(ps@).skip(from as int).take(ps.len() - from) =~= parts_of(ps@).skip(from as int));
    out
}

/// What is left of `p` after the leading components of `base`, if `p`
/// lies under `base`.
pub fn strip_prefix(p: &str, base: &str) -> (r: Option<String>)
    ensures
        match strip_prefix_spec(p@, base@) {
            Some(x) => r is Some && r->0@ == x,
            None => r is None,
        },
{
    let pc = path_components(p);
    let bc = path_components(base);
    if components_start_with(&pc, &bc) {
        Some(join_components_from(&pc, bc.len()))
    } else {
        None
    }
}

/// `p` relative to `base` when it lies under it, `p` itself otherwise.
pub fn relative_path(p: &str, base: &str) -> (r: String)
    ensures
        r@ == relative_to(p@, base@),
{
    match strip_prefix(p, base) {
        Some(x) => x,
        None => p.to_owned(),
    }
}

/// The name of the last component of `p`, when it is one.
pub fn path_file_name(p: &str) -> (r: Option<String>)
    ensures
        match file_name(p@) {
            Some(n) => r is Some && r->0@ == n,
            None => r is None,
        },
{
    let pc = path_components(p);
    let n = pc.len();
    if n == 0 {
        return None;
    }
    assert(parts_of(pc@).last() == pc@[n - 1]@);
    match &pc[n - 1] {
        Component::Normal(name) => Some(name.clone()),
        _ => None,
    }
}

/// The position of the last '.' in `cs`, or -1 (as `None`).
fn find_last_dot(cs: &Vec<char>) -> (r: Option<usize>)
    ensures
        match r {
            Some(k) => last_dot(cs@) == k as int && k < cs.len(),
            None => last_dot(cs@) == -1,
        },
{
    let mut i = cs.len();
    assert(cs@.take(i as int) =~= cs@);
    while i > 0
        invariant
            i <= cs.len(),
            last_dot(cs@) == last_dot(cs@.take(i as int)),
        decreases i,
    {
        assert(cs@.take(i as int).last() == cs@[i - 1]);
        if cs[i - 1] == '.' {
            return Some(i - 1);
        }
        assert(cs@.take(i as int).drop_last() =~= cs@.take(i - 1));
        i = i - 1;
    }
    None
}

/// The stem of the file name of `p`.
pub fn path_file_stem(p: &str) -> (r: Option<String>)
    ensures
        match file_stem(p@) {
            Some(n) => r is Some && r->0@ == n,
            None => r is None,
        },
{
    match path_file_name(p) {
        None => None,
        Some(name) => {
            let cs = chars_of(name.as_str());
            match find_last_dot(&cs) {
                Some(k) => {
                    if k == 0 {
                        Some(name)
                    } else {
                        Some(name.as_str().substring_char(0, k).to_owned())
                    }
                },
                None => Some(name),
            }
        },
    }
}

/// Whether the file name `n` has the extension "md".
fn has_md_extension(n: &str) -> (r: bool)
    ensures
        r == (extension_of_name(n@) == Some(seq!['m', 'd'])),
{
    let cs = chars_of(n);
    match find_last_dot(&cs) {
        None => false,
        Some(k) => {
            if k == 0 {
                false
            } else {
                let ghost ext = cs@.subrange(k + 1, cs@.len() as int);
                let ok = cs.len() - k == 3 && cs[k + 1] == 'm' && cs[k + 2] == 'd';
                proof {
                    assert(seq!['m', 'd'].len() == 2);
                    if ok {
                        assert(ext =~= seq!['m', 'd']);
                    } else if ext.len() == 2 {
                        assert(ext[0] == cs@[k + 1]);
                        assert(ext[1] == cs@[k + 2]);
                        assert(ext[0] != seq!['m', 'd'][0] || ext[1] != seq!['m', 'd'][1]);
                    }
                }
                ok
            }
        },
    }
}

/// Whether a component's text starts with '.'.
fn hidden_component(c: &Component) -> (r: bool)
    ensures
        r == is_hidden_part(c@),
{
    match c {
        Component::RootDir => false,
        Component::CurDir => true,
        Component::ParentDir => true,
        Component::Normal(n) => {
            let cs = chars_of(n.as_str());
            cs.len() > 0 && cs[0] == '.'
        },
    }
}

/// Whether `p` is a markdown note of the vault (see `is_note_path`).
pub fn is_note(p: &str) -> (r: bool)
    ensures
        r == is_note_path(p@),
{
    let pc = path_components(p);
    let mut i: usize = 0;
    while i < pc.len()
        invariant
            i <= pc.len(),
            parts_of(pc@) == components(p@),
            forall|j: int| 0 <= j < i ==> !is_hidden_part(#[trigger] components(p@)[j]),
        decreases pc.len() - i,
    {
        if hidden_component(&pc[i]) {
            assert(is_hidden_part(components(p@)[i as int]));
            return false;
        }
        i = i + 1;
    }
    match path_file_name(p) {
        None => false,
        Some(n) => has_md_extension(n.as_str()),
    }
}


/// An existing path is resolved to its canonical form exactly when that
/// form lies in the vault, whatever its depth below the root; otherwise the
/// resolution is refused as a traversal.
pub proof fn law_existing_paths_in_the_vault_resolve(root: Seq<char>, rel: Seq<char>, canonical: String)
    ensures
        starts_with_parts(components(canonical@), components(root)) ==> resolve_spec(
            Some(root),
            rel,
            PathProbe::Canonical(canonical),
        ) == Ok::<Seq<char>, Seq<char>>(canonical@),
        !starts_with_parts(components(canonical@), components(root)) ==> resolve_spec(
            Some(root),
            rel,
            PathProbe::Canonical(canonical),
        ) == Err::<Seq<char>, Seq<char>>(traversal_text()),
{
}

} // verus!
