//! The file tree of the vault: which directory entries are shown, under
//! which vault-relative path, and in which order.
use vstd::prelude::*;
use vstd::string::StringExecFns;
use crate::order::{chars_less, less_chars, lemma_chars_less_asymmetric, lemma_chars_less_transitive};
use crate::path::{relative_path, relative_to, resolve_safe_path, resolve_spec, result_view, PathProbe};
use crate::text::{backslashes_to_slashes, chars_of, slashes_spec};

verus! {

broadcast use vstd::seq_lib::group_to_multiset_ensures;

/// One entry of the file tree.
pub struct FileNode {
    pub name: String,
    pub path: String,
    pub is_dir: bool,
}

pub open spec fn node_view(n: FileNode) -> (Seq<char>, Seq<char>, bool) {
    (n.name@, n.path@, n.is_dir)
}

pub open spec fn nodes_view(v: Seq<FileNode>) -> Seq<(Seq<char>, Seq<char>, bool)> {
    v.map_values(|n: FileNode| node_view(n))
}

/// An entry read from a directory: its file name, its full path, and
/// whether it is a directory.
pub struct DirEntry {
    pub name: String,
    pub path: String,
    pub is_dir: bool,
}

pub open spec fn dir_entry_view(e: DirEntry) -> (Seq<char>, Seq<char>, bool) {
    (e.name@, e.path@, e.is_dir)
}

pub open spec fn dir_entries_view(v: Seq<DirEntry>) -> Seq<(Seq<char>, Seq<char>, bool)> {
    v.map_values(|e: DirEntry| dir_entry_view(e))
}

/// The node shown for a directory entry under the vault `root`: none for a
/// name that starts with '.', otherwise the name, the path relative to the
/// root with backslashes turned into slashes, and the directory flag.
pub open spec fn listed_node(root: Seq<char>, e: (Seq<char>, Seq<char>, bool)) -> Option<
    (Seq<char>, Seq<char>, bool),
> {
    if e.0.len() > 0 && e.0[0] == '.' {
        None
    } else {
        Some((e.0, slashes_spec(relative_to(e.1, root)), e.2))
    }
}

/// The nodes shown for the entries of a directory, in entry order.
pub open spec fn listing_spec(root: Seq<char>, entries: Seq<(Seq<char>, Seq<char>, bool)>) -> Seq<
    (Seq<char>, Seq<char>, bool),
> {
    entries.filter_map(|e: (Seq<char>, Seq<char>, bool)| listed_node(root, e))
}

/// `a` is shown before `b`: directories first, then by name.
pub open spec fn node_less(a: (Seq<char>, Seq<char>, bool), b: (Seq<char>, Seq<char>, bool)) -> bool {
    (a.2 && !b.2) || (a.2 == b.2 && chars_less(a.0, b.0))
}

/// The nodes are in file tree order: no node is shown after one it precedes.
pub open spec fn in_tree_order(v: Seq<(Seq<char>, Seq<char>, bool)>) -> bool {
    forall|i: int, j: int| 0 <= i < j < v.len() ==> !node_less(#[trigger] v[j], #[trigger] v[i])
}

proof fn lemma_node_less_transitive(
    a: (Seq<char>, Seq<char>, bool),
    b: (Seq<char>, Seq<char>, bool),
    c: (Seq<char>, Seq<char>, bool),
)
    requires
        node_less(a, b),
        node_less(b, c),
    ensures
        node_less(a, c),
{
    if a.2 == b.2 && b.2 == c.2 {
        lemma_chars_less_transitive(a.0, b.0, c.0);
    }
}

proof fn lemma_node_not_less_both(a: (Seq<char>, Seq<char>, bool), b: (Seq<char>, Seq<char>, bool))
    ensures
        !(node_less(a, b) && node_less(b, a)),
{
    lemma_chars_less_asymmetric(a.0, b.0);
}

/// Whether `a` is shown before `b`.
fn node_precedes(a: &FileNode, b: &FileNode) -> (r: bool)
    ensures
        r == node_less(node_view(*a), node_view(*b)),
{
    if a.is_dir && !b.is_dir {
        return true;
    }
    if a.is_dir != b.is_dir {
        return false;
    }
    let an = chars_of(a.name.as_str());
    let bn = chars_of(b.name.as_str());
    less_chars(&an, &bn)
}

/// Inserts `x` into the ordered `v` after every node it does not precede.
fn insert_ordered(v: &mut Vec<FileNode>, x: FileNode)
    requires
        in_tree_order(nodes_view(old(v)@)),
    ensures
        in_tree_order(nodes_view(final(v)@)),
        nodes_view(final(v)@).to_multiset() == nodes_view(old(v)@).to_multiset().insert(node_view(x)),
{
    let ghost xv = node_view(x);
    let mut p: usize = 0;
    while p < v.len() && !node_precedes(&x, &v[p])
        invariant
            p <= v.len(),
            xv == node_view(x),
            forall|k: int| 0 <= k < p ==> !node_less(xv, #[trigger] nodes_view(v@)[k]),
        decreases v.len() - p,
    {
        assert(nodes_view(v@)[p as int] == node_view(v@[p as int]));
        p = p + 1;
    }
    let ghost before = nodes_view(v@);
    proof {
        if p < v.len() {
            assert(before[p as int] == node_view(v@[p as int]));
            assert(node_less(xv, before[p as int]));
        }
    }
    v.insert(p, x);
    proof {
        let after = nodes_view(v@);
        assert(after =~= before.insert(p as int, xv));
        assert forall|i: int, j: int| 0 <= i < j < after.len() implies !node_less(#[trigger] after[j], #[trigger] after[i]) by {
            if j < p {
                assert(after[i] == before[i] && after[j] == before[j]);
            } else if j == p {
                assert(after[j] == xv && after[i] == before[i]);
                lemma_node_not_less_both(xv, before[i]);
                assert(!node_less(xv, before[i]));
            } else if i == p {
                assert(after[i] == xv && after[j] == before[j - 1]);
                // before[p] <= before[j - 1] and x < before[p]
                if node_less(before[j - 1], xv) {
                    if j - 1 == p {
                        lemma_node_not_less_both(xv, before[p as int]);
                    } else {
                        lemma_node_less_transitive(before[j - 1], xv, before[p as int]);
                        assert(!node_less(before[j - 1], before[p as int]));
                    }
                }
            } else if i < p {
                assert(after[i] == before[i] && after[j] == before[j - 1]);
            } else {
                assert(after[i] == before[i - 1] && after[j] == before[j - 1]);
            }
        }
    }
}

/// The file tree nodes for the entries of a directory of the vault at the
/// canonical `root`: the nodes of `listed_node`, directories first, then by name.
pub fn list_directory(root: &str, entries: &Vec<DirEntry>) -> (r: Vec<FileNode>)
    ensures
        nodes_view(r@).to_multiset() == listing_spec(root@, dir_entries_view(entries@)).to_multiset(),
        in_tree_order(nodes_view(r@)),
{
    let mut out: Vec<FileNode> = Vec::new();
    let mut i: usize = 0;
    let ghost ev = dir_entries_view(entries@);
    assert(ev.take(0) =~= Seq::<(Seq<char>, Seq<char>, bool)>::empty());
    assert(nodes_view(out@) =~= Seq::<(Seq<char>, Seq<char>, bool)>::empty());
    while i < entries.len()
        invariant
            i <= entries.len(),
            ev == dir_entries_view(entries@),
            in_tree_order(nodes_view(out@)),
            nodes_view(out@).to_multiset() == ev.take(i as int).filter_map(
                |e: (Seq<char>, Seq<char>, bool)| listed_node(root@, e),
            ).to_multiset(),
        decreases entries.len() - i,
    {
        assert(ev.take(i + 1).drop_last() =~= ev.take(i as int));
        assert(ev.take(i + 1).last() == dir_entry_view(entries@[i as int]));
        let e = &entries[i];
        let nc = chars_of(e.name.as_str());
        if !(nc.len() > 0 && nc[0] == '.') {
            let rel = relative_path(e.path.as_str(), root);
            let node = FileNode {
                name: e.name.clone(),
                path: backslashes_to_slashes(rel.as_str()),
                is_dir: e.is_dir,
            };
            let ghost fm = ev.take(i as int).filter_map(
                |e: (Seq<char>, Seq<char>, bool)| listed_node(root@, e),
            );
            insert_ordered(&mut out, node);
            assert(fm + seq![node_view(node)] =~= fm.push(node_view(node)));
        }
        i = i + 1;
    }
    assert(ev.take(entries.len() as int) =~= ev);
    out
}

/// The directory to list for `sub_path` in the vault at the canonical
/// `root`: the root itself when `sub_path` is empty, otherwise the result of
/// `resolve_safe_path` with what the file system reported for
/// `join_path(root, sub_path)`.
pub fn listing_directory(root: &str, sub_path: &str, probe: &PathProbe) -> (r: Result<String, String>)
    ensures
        result_view(r) == if sub_path@.len() == 0 {
            Ok(root@)
        } else {
            resolve_spec(Some(root@), sub_path@, *probe)
        },
{
    if sub_path.is_empty() {
        Ok(root.to_owned())
    } else {
        resolve_safe_path(Some(root), sub_path, probe)
    }
}

/// The file tree shows no entry whose name starts with '.', and every node
/// it shows keeps the name and kind of its entry.
pub proof fn law_listing_hides_dot_entries(root: Seq<char>, entries: Seq<(Seq<char>, Seq<char>, bool)>)
    ensures
        forall|i: int|
            0 <= i < listing_spec(root, entries).len() ==> {
                let n = #[trigger] listing_spec(root, entries)[i];
                !(n.0.len() > 0 && n.0[0] == '.')
            },
    decreases entries.len(),
{
    if entries.len() > 0 {
        law_listing_hides_dot_entries(root, entries.drop_last());
        let prev = listing_spec(root, entries.drop_last());
        match listed_node(root, entries.last()) {
            Some(n) => {
                let all = listing_spec(root, entries);
                assert(all == prev + seq![n]);
                assert forall|i: int| 0 <= i < all.len() implies {
                    let m = #[trigger] all[i];
                    !(m.0.len() > 0 && m.0[0] == '.')
                } by {
                    if i < prev.len() {
                        assert(all[i] == prev[i]);
                    }
                }
            },
            None => {},
        }
    }
}

/// Whether a note may be created at `rel_path`: not when something exists
/// there (`exists`), which is the error "Note already exists: <path>".
pub fn check_new_note(rel_path: &str, exists: bool) -> (r: Result<(), String>)
    ensures
        !exists ==> r is Ok,
        exists ==> r is Err && r->Err_0@ == "Note already exists: "@ + rel_path@,
{
    if exists {
        let mut m = "Note already exists: ".to_owned();
        m.append(rel_path);
        Err(m)
    } else {
        Ok(())
    }
}

/// Whether the note at `rel_path` may be deleted: only when it exists
/// (`exists`), otherwise the error "Note not found: <path>".
pub fn check_existing_note(rel_path: &str, exists: bool) -> (r: Result<(), String>)
    ensures
        exists ==> r is Ok,
        !exists ==> r is Err && r->Err_0@ == "Note not found: "@ + rel_path@,
{
    if exists {
        Ok(())
    } else {
        let mut m = "Note not found: ".to_owned();
        m.append(rel_path);
        Err(m)
    }
}

} // verus!
