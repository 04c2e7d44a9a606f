//! The note graph: every note and every link target is a node, every wiki
//! link is an edge from the linking note to its target.
use vstd::prelude::*;
use crate::index::{BacklinkIndex, strings_view};
use vstd::string::StrSliceExecFns;
use crate::path::{file_stem, is_note, is_note_path, path_file_stem, relative_path, relative_to};

verus! {

pub struct GraphNode {
    pub id: String,
}

pub struct GraphEdge {
    pub source: String,
    pub target: String,
}

pub struct GraphData {
    pub nodes: Vec<GraphNode>,
    pub edges: Vec<GraphEdge>,
}

pub open spec fn node_ids(v: Seq<GraphNode>) -> Seq<Seq<char>> {
    v.map_values(|n: GraphNode| n.id@)
}

pub open spec fn edges_view(v: Seq<GraphEdge>) -> Seq<(Seq<char>, Seq<char>)> {
    v.map_values(|e: GraphEdge| (e.source@, e.target@))
}

/// A file met while walking the vault: its path and whether it is a regular file.
pub struct WalkedFile {
    pub path: String,
    pub is_file: bool,
}

pub open spec fn walked_view(v: Seq<WalkedFile>) -> Seq<(Seq<char>, bool)> {
    v.map_values(|f: WalkedFile| (f.path@, f.is_file))
}

/// The node of a file met while walking the vault at `root`: the stem of
/// the file name of a note (only the path below the root is looked at).
pub open spec fn file_node(root: Seq<char>, f: (Seq<char>, bool)) -> Option<Seq<char>> {
    if f.1 && is_note_path(relative_to(f.0, root)) {
        file_stem(f.0)
    } else {
        None
    }
}

/// The name under which a linking note appears: the stem of its file name,
/// when it has a non-empty one.
pub open spec fn source_name(s: Seq<char>) -> Option<Seq<char>> {
    match file_stem(s) {
        Some(n) => if n.len() > 0 {
            Some(n)
        } else {
            None
        },
        None => None,
    }
}

/// The edges of the backlinks entries, in order: one from each source
/// that has a name to the entry's target.
pub open spec fn graph_edges(es: Seq<(Seq<char>, Seq<Seq<char>>)>) -> Seq<(Seq<char>, Seq<char>)>
    decreases es.len(),
{
    if es.len() == 0 {
        Seq::empty()
    } else {
        let e = es.last();
        graph_edges(es.drop_last()) + e.1.filter_map(
            |s: Seq<char>|
                match source_name(s) {
                    Some(n) => Some((n, e.0)),
                    None => None,
                },
        )
    }
}

/// The node names contributed by the backlinks entries: each target, then
/// the names of its sources.
pub open spec fn entry_nodes(es: Seq<(Seq<char>, Seq<Seq<char>>)>) -> Seq<Seq<char>>
    decreases es.len(),
{
    if es.len() == 0 {
        Seq::empty()
    } else {
        let e = es.last();
        entry_nodes(es.drop_last()) + seq![e.0] + e.1.filter_map(|s: Seq<char>| source_name(s))
    }
}

/// Every name that becomes a node: the stems of the notes, the link
/// targets (also those not yet created) and the names of linking notes.
pub open spec fn graph_node_names(root: Seq<char>, files: Seq<(Seq<char>, bool)>, es: Seq<(Seq<char>, Seq<Seq<char>>)>) -> Seq<
    Seq<char>,
> {
    files.filter_map(|f: (Seq<char>, bool)| file_node(root, f)) + entry_nodes(es)
}

/// No name occurs twice.
pub open spec fn no_duplicates(ids: Seq<Seq<char>>) -> bool {
    forall|i: int, j: int| 0 <= i < ids.len() && 0 <= j < ids.len() && i != j ==> #[trigger] ids[i] != #[trigger] ids[j]
}

/// The same names occur in both.
pub open spec fn same_names(a: Seq<Seq<char>>, b: Seq<Seq<char>>) -> bool {
    forall|x: Seq<char>| #[trigger] a.contains(x) <==> #[trigger] b.contains(x)
}

proof fn lemma_contains_push(s: Seq<Seq<char>>, x: Seq<char>, y: Seq<char>)
    ensures
        s.push(x).contains(y) <==> (s.contains(y) || x == y),
{
    if s.push(x).contains(y) && !s.contains(y) {
        let w = choose|i: int| 0 <= i < s.push(x).len() && s.push(x)[i] == y;
        if w < s.len() {
            assert(s[w] == y);
        }
    }
    if s.contains(y) {
        let w = choose|i: int| 0 <= i < s.len() && s[i] == y;
        assert(s.push(x)[w] == y);
    }
    if x == y {
        assert(s.push(x)[s.len() as int] == y);
    }
}

/// Adds a node named `id` unless there is one already.
fn add_node(nodes: &mut Vec<GraphNode>, names: Ghost<Seq<Seq<char>>>, id: String)
    requires
        no_duplicates(node_ids(old(nodes)@)),
        same_names(node_ids(old(nodes)@), names@),
    ensures
        no_duplicates(node_ids(final(nodes)@)),
        same_names(node_ids(final(nodes)@), names@.push(id@)),
{
    let mut i: usize = 0;
    while i < nodes.len()
        invariant
            i <= nodes.len(),
            no_duplicates(node_ids(nodes@)),
            same_names(node_ids(nodes@), names@),
            forall|j: int| 0 <= j < i ==> #[trigger] node_ids(nodes@)[j] != id@,
        decreases nodes.len() - i,
    {
        assert(node_ids(nodes@)[i as int] == nodes@[i as int].id@);
        if nodes[i].id.eq(&id) {
            proof {
                assert forall|x: Seq<char>| #[trigger] node_ids(nodes@).contains(x) <==> #[trigger] names@.push(id@).contains(x) by {
                    lemma_contains_push(names@, id@, x);
                    if x == id@ {
                        assert(node_ids(nodes@)[i as int] == x);
                        assert(node_ids(nodes@).contains(x));
                    }
                }
            }
            return;
        }
        i = i + 1;
    }
    let ghost before = node_ids(nodes@);
    nodes.push(GraphNode { id });
    proof {
        let after = node_ids(nodes@);
        assert(after =~= before.push(id@));
        assert forall|a: int, b: int| 0 <= a < after.len() && 0 <= b < after.len() && a != b implies #[trigger] after[a] != #[trigger] after[b] by {
            if a < before.len() && b < before.len() {
                assert(after[a] == before[a] && after[b] == before[b]);
            } else if a < before.len() {
                assert(after[a] == before[a]);
            } else {
                assert(after[b] == before[b]);
            }
        }
        assert forall|x: Seq<char>| #[trigger] after.contains(x) <==> #[trigger] names@.push(id@).contains(x) by {
            lemma_contains_push(names@, id@, x);
            lemma_contains_push(before, id@, x);
        }
    }
}

/// The note graph of the vault: a node for the stem of every note met while
/// walking the vault and for every name in the backlinks index (targets,
/// also those not created yet, and linking notes), each once; an edge from
/// each linking note to its target, entry by entry.
pub fn get_graph(vault_root: &str, files: &Vec<WalkedFile>, backlinks: &BacklinkIndex) -> (r: GraphData)
    ensures
        no_duplicates(node_ids(r.nodes@)),
        same_names(node_ids(r.nodes@), graph_node_names(vault_root@, walked_view(files@), backlinks.entry_seq())),
        edges_view(r.edges@) == graph_edges(backlinks.entry_seq()),
{
    let mut nodes: Vec<GraphNode> = Vec::new();
    let mut edges: Vec<GraphEdge> = Vec::new();
    let ghost fv = walked_view(files@);
    let ghost es = backlinks.entry_seq();
    let mut i: usize = 0;
    assert(fv.take(0) =~= Seq::<(Seq<char>, bool)>::empty());
    assert(node_ids(nodes@) =~= Seq::<Seq<char>>::empty());
    while i < files.len()
        invariant
            i <= files.len(),
            fv == walked_view(files@),
            no_duplicates(node_ids(nodes@)),
            same_names(node_ids(nodes@), fv.take(i as int).filter_map(|f: (Seq<char>, bool)| file_node(vault_root@, f))),
        decreases files.len() - i,
    {
        let ghost names = fv.take(i as int).filter_map(|f: (Seq<char>, bool)| file_node(vault_root@, f));
        assert(fv.take(i + 1).drop_last() =~= fv.take(i as int));
        assert(fv.take(i + 1).last() == (files@[i as int].path@, files@[i as int].is_file));
        if files[i].is_file && is_note(relative_path(files[i].path.as_str(), vault_root).as_str()) {
            match path_file_stem(files[i].path.as_str()) {
                Some(stem) => {
                    add_node(&mut nodes, Ghost(names), stem);
                    assert(names + seq![file_node(vault_root@, fv[i as int])->0] =~= names.push(file_node(vault_root@, fv[i as int])->0));
                },
                None => {},
            }
        }
        i = i + 1;
    }
    assert(fv.take(files.len() as int) =~= fv);
    let ghost file_names = fv.filter_map(|f: (Seq<char>, bool)| file_node(vault_root@, f));
    let n = backlinks.target_count();
    let mut k: usize = 0;
    assert(es.take(0) =~= Seq::<(Seq<char>, Seq<Seq<char>>)>::empty());
    assert(file_names + entry_nodes(es.take(0)) =~= file_names);
    assert(edges_view(edges@) =~= Seq::<(Seq<char>, Seq<char>)>::empty());
    while k < n
        invariant
            k <= n,
            n == es.len(),
            es == backlinks.entry_seq(),
            file_names == fv.filter_map(|f: (Seq<char>, bool)| file_node(vault_root@, f)),
            no_duplicates(node_ids(nodes@)),
            same_names(node_ids(nodes@), file_names + entry_nodes(es.take(k as int))),
            edges_view(edges@) == graph_edges(es.take(k as int)),
        decreases n - k,
    {
        let target = backlinks.target_at(k);
        let sources = backlinks.sources_at(k);
        let ghost e = es[k as int];
        let ghost base = file_names + entry_nodes(es.take(k as int));
        let ghost base_edges = graph_edges(es.take(k as int));
        assert(es.take(k + 1).drop_last() =~= es.take(k as int));
        assert(es.take(k + 1).last() == e);
        add_node(&mut nodes, Ghost(base), target.clone());
        let ghost sv = strings_view(sources@);
        let mut j: usize = 0;
        assert(sv.take(0) =~= Seq::<Seq<char>>::empty());
        assert(base.push(e.0) + sv.take(0).filter_map(|s: Seq<char>| source_name(s)) =~= base.push(e.0));
        assert(base_edges + sv.take(0).filter_map(
            |s: Seq<char>|
                match source_name(s) {
                    Some(nm) => Some((nm, e.0)),
                    None => None,
                },
        ) =~= base_edges);
        while j < sources.len()
            invariant
                j <= sources.len(),
                sv == strings_view(sources@),
                target@ == e.0,
                no_duplicates(node_ids(nodes@)),
                same_names(node_ids(nodes@), base.push(e.0) + sv.take(j as int).filter_map(|s: Seq<char>| source_name(s))),
                edges_view(edges@) == base_edges + sv.take(j as int).filter_map(
                    |s: Seq<char>|
                        match source_name(s) {
                            Some(nm) => Some((nm, e.0)),
                            None => None,
                        },
                ),
            decreases sources.len() - j,
        {
            let ghost sn = sv.take(j as int).filter_map(|s: Seq<char>| source_name(s));
            let ghost se = sv.take(j as int).filter_map(
                |s: Seq<char>|
                    match source_name(s) {
                        Some(nm) => Some((nm, e.0)),
                        None => None,
                    },
            );
            assert(sv.take(j + 1).drop_last() =~= sv.take(j as int));
            assert(sv.take(j + 1).last() == sources@[j as int]@);
            match path_file_stem(sources[j].as_str()) {
                Some(name) => {
                    if name.as_str().unicode_len() > 0 {
                        assert(source_name(sv[j as int]) == Some(name@));
                        let ghost before_edges = edges_view(edges@);
                        add_node(&mut nodes, Ghost(base.push(e.0) + sn), name.clone());
                        edges.push(GraphEdge { source: name, target: target.clone() });
                        assert(sv.take(j + 1).filter_map(|s: Seq<char>| source_name(s)) == sn + seq![name@]);
                        assert(base.push(e.0) + sv.take(j + 1).filter_map(|s: Seq<char>| source_name(s)) =~= (base.push(e.0) + sn).push(name@));
                        assert(edges_view(edges@) =~= before_edges.push((source_name(sv[j as int])->0, e.0)));
                        assert(base_edges + (se + seq![(source_name(sv[j as int])->0, e.0)]) =~= (base_edges + se).push((source_name(sv[j as int])->0, e.0)));
                    } else {
                        assert(source_name(sv[j as int]) is None);
                        assert(sv.take(j + 1).filter_map(|s: Seq<char>| source_name(s)) == sn);
                    }
                },
                None => {
                    assert(source_name(sv[j as int]) is None);
                    assert(sv.take(j + 1).filter_map(|s: Seq<char>| source_name(s)) == sn);
                },
            }
            j = j + 1;
        }
        assert(sv.take(sources.len() as int) =~= sv);
        assert(file_names + entry_nodes(es.take(k + 1)) =~= base.push(e.0) + sv.filter_map(|s: Seq<char>| source_name(s)));
        k = k + 1;
    }
    assert(es.take(n as int) =~= es);
    GraphData { nodes, edges }
}

proof fn lemma_entry_targets_are_nodes(es: Seq<(Seq<char>, Seq<Seq<char>>)>, i: int)
    requires
        0 <= i < es.len(),
    ensures
        entry_nodes(es).contains(es[i].0),
    decreases es.len(),
{
    let pre = entry_nodes(es.drop_last());
    let e = es.last();
    let tail = e.1.filter_map(|s: Seq<char>| source_name(s));
    assert(entry_nodes(es) == pre + seq![e.0] + tail);
    if i == es.len() - 1 {
        assert(entry_nodes(es)[pre.len() as int] == e.0);
    } else {
        lemma_entry_targets_are_nodes(es.drop_last(), i);
        let w = choose|k: int| 0 <= k < pre.len() && pre[k] == es.drop_last()[i].0;
        assert(entry_nodes(es)[w] == pre[w]);
        assert(es.drop_last()[i] == es[i]);
    }
}

/// Every link target of the backlinks index is a node of the graph, also a
/// note that does not exist yet.
pub proof fn law_link_targets_are_nodes(root: Seq<char>, files: Seq<(Seq<char>, bool)>, backlinks: BacklinkIndex, target: Seq<char>)
    requires
        backlinks.wf(),
        backlinks@.dom().contains(target),
    ensures
        graph_node_names(root, files, backlinks.entry_seq()).contains(target),
{
    let es = backlinks.entry_seq();
    let w = choose|i: int| 0 <= i < es.len() && #[trigger] es[i].0 == target;
    lemma_entry_targets_are_nodes(es, w);
    let fs = files.filter_map(|f: (Seq<char>, bool)| file_node(root, f));
    let k = choose|j: int| 0 <= j < entry_nodes(es).len() && entry_nodes(es)[j] == target;
    assert(graph_node_names(root, files, es)[fs.len() + k] == target);
}

} // verus!
