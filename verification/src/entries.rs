//! The documents of a tree, one after the other, with a heading for each directory.
use crate::sorting::{inserted, stable_sorted};
use crate::tree::{
    all_arranged, arranged, by_name, by_place, in_order, lemma_children, trees, FileNode, NodeKind,
    Tree,
};
use vstd::prelude::*;

verus! {

/// An entry in the sequence of documents.
pub enum DocEntry {
    /// The heading of a directory.
    Section { name: String, dir_path: String, depth: usize },
    /// A markdown document.
    Document { path: String, depth: usize },
}

/// An entry in the sequence of documents, as texts.
pub enum Entry {
    Section { name: Seq<char>, dir_path: Seq<char>, depth: int },
    Document { path: Seq<char>, depth: int },
}

impl View for DocEntry {
    type V = Entry;

    open spec fn view(&self) -> Entry {
        match self {
            DocEntry::Section { name, dir_path, depth } => Entry::Section {
                name: name@,
                dir_path: dir_path@,
                depth: *depth as int,
            },
            DocEntry::Document { path, depth } => Entry::Document {
                path: path@,
                depth: *depth as int,
            },
        }
    }
}

/// The views of a sequence of entries.
pub open spec fn doc_views(entries: Seq<DocEntry>) -> Seq<Entry> {
    entries.map_values(|e: DocEntry| e@)
}

/// The entries of `t` at the nesting level `depth`: a file is a document, and a directory is a
/// section followed by the entries of what it holds, one level deeper.
pub open spec fn entries_of(t: Tree, depth: int) -> Seq<Entry>
    decreases t,
{
    match t {
        Tree::File { path, .. } => seq![Entry::Document { path, depth }],
        Tree::Dir { name, path, children } => seq![
            Entry::Section { name, dir_path: path, depth },
        ] + all_entries(children, depth + 1),
    }
}

/// The entries of the siblings `ts` at the nesting level `depth`.
pub open spec fn all_entries(ts: Seq<Tree>, depth: int) -> Seq<Entry>
    decreases ts,
{
    if ts.len() == 0 {
        seq![]
    } else {
        all_entries(ts.drop_last(), depth) + entries_of(ts.last(), depth)
    }
}

/// How deep directories are nested in `t`.
pub open spec fn nesting(t: Tree) -> int
    decreases t,
{
    match t {
        Tree::File { .. } => 0,
        Tree::Dir { children, .. } => 1 + max_nesting(children),
    }
}

/// How deep directories are nested in `ts`.
pub open spec fn max_nesting(ts: Seq<Tree>) -> int
    decreases ts,
{
    if ts.len() == 0 {
        0
    } else {
        let front = max_nesting(ts.drop_last());
        let last = nesting(ts.last());
        if front < last {
            last
        } else {
            front
        }
    }
}

proof fn lemma_nesting_bound(ts: Seq<Tree>, i: int)
    requires
        0 <= i < ts.len(),
    ensures
        nesting(ts[i]) <= max_nesting(ts),
    decreases ts.len(),
{
    if i < ts.len() - 1 {
        lemma_nesting_bound(ts.drop_last(), i);
    }
}

/// Whether the nesting levels below `nodes` can be counted, where `depth` is their own.
pub fn levels_fit(nodes: &Vec<FileNode>, depth: usize) -> (b: bool)
    ensures
        b == (depth + max_nesting(trees(nodes@)) <= usize::MAX),
    decreases *nodes,
{
    let ghost all = trees(nodes@);
    let mut i: usize = 0;
    while i < nodes.len()
        invariant
            i <= nodes.len(),
            all == trees(nodes@),
            depth + max_nesting(all.take(i as int)) <= usize::MAX,
        decreases nodes.len() - i,
    {
        proof {
            assert(all.take(i + 1).drop_last() =~= all.take(i as int));
            assert(all.take(i + 1).last() == nodes@[i as int].tree());
            lemma_children(nodes@[i as int]);
            lemma_nesting_bound(all, i as int);
            assert(all[i as int] == nodes@[i as int].tree());
        }
        match &nodes[i].kind {
            NodeKind::File => {},
            NodeKind::Dir(children) => {
                proof {
                    lemma_nesting_nonnegative(trees(children@));
                }
                if depth == usize::MAX || !levels_fit(children, depth + 1) {
                    return false;
                }
            },
        }
        i += 1;
    }
    assert(all.take(all.len() as int) =~= all);
    true
}

/// The entries of the siblings `nodes`, where `depth` is their nesting level: directories as
/// sections, files as documents.
pub fn collect_doc_entries(nodes: &Vec<FileNode>, depth: usize) -> (out: Vec<DocEntry>)
    requires
        depth + max_nesting(trees(nodes@)) <= usize::MAX,
    ensures
        doc_views(out@) == all_entries(trees(nodes@), depth as int),
    decreases *nodes,
{
    let ghost all = trees(nodes@);
    let mut out: Vec<DocEntry> = Vec::new();
    let mut i: usize = 0;
    assert(doc_views(out@) =~= all_entries(all.take(0), depth as int));
    while i < nodes.len()
        invariant
            i <= nodes.len(),
            all == trees(nodes@),
            depth + max_nesting(all) <= usize::MAX,
            doc_views(out@) == all_entries(all.take(i as int), depth as int),
        decreases nodes.len() - i,
    {
        let ghost before = doc_views(out@);
        proof {
            assert(all.take(i + 1).drop_last() =~= all.take(i as int));
            assert(all.take(i + 1).last() == nodes@[i as int].tree());
            lemma_children(nodes@[i as int]);
            lemma_nesting_bound(all, i as int);
            assert(all[i as int] == nodes@[i as int].tree());
        }
        match &nodes[i].kind {
            NodeKind::File => {
                out.push(DocEntry::Document { path: nodes[i].path.clone(), depth });
                assert(doc_views(out@) =~= before + entries_of(all[i as int], depth as int));
            },
            NodeKind::Dir(children) => {
                proof {
                    lemma_nesting_nonnegative(trees(children@));
                }
                out.push(
                    DocEntry::Section {
                        name: nodes[i].name.clone(),
                        dir_path: nodes[i].path.clone(),
                        depth,
                    },
                );
                let mut inner = collect_doc_entries(children, depth + 1);
                out.append(&mut inner);
                assert(doc_views(out@) =~= before + entries_of(all[i as int], depth as int));
            },
        }
        i += 1;
    }
    assert(all.take(all.len() as int) =~= all);
    out
}

proof fn lemma_nesting_nonnegative(ts: Seq<Tree>)
    ensures
        max_nesting(ts) >= 0,
    decreases ts.len(),
{
    if ts.len() > 0 {
        lemma_nesting_nonnegative(ts.drop_last());
    }
}

/// The paths of the files in `t`, in order.
pub open spec fn file_paths(t: Tree) -> Seq<Seq<char>>
    decreases t,
{
    match t {
        Tree::File { path, .. } => seq![path],
        Tree::Dir { children, .. } => all_file_paths(children),
    }
}

/// The paths of the files in `ts`, in order.
pub open spec fn all_file_paths(ts: Seq<Tree>) -> Seq<Seq<char>>
    decreases ts,
{
    if ts.len() == 0 {
        seq![]
    } else {
        all_file_paths(ts.drop_last()) + file_paths(ts.last())
    }
}

/// The paths of the documents among `entries`, in order.
pub open spec fn document_paths(entries: Seq<Entry>) -> Seq<Seq<char>>
    decreases entries.len(),
{
    if entries.len() == 0 {
        seq![]
    } else {
        match entries.last() {
            Entry::Document { path, .. } => document_paths(entries.drop_last()).push(path),
            Entry::Section { .. } => document_paths(entries.drop_last()),
        }
    }
}

proof fn lemma_document_paths_add(a: Seq<Entry>, b: Seq<Entry>)
    ensures
        document_paths(a + b) == document_paths(a) + document_paths(b),
    decreases b.len(),
{
    if b.len() == 0 {
        assert(a + b =~= a);
    } else {
        assert((a + b).drop_last() =~= a + b.drop_last());
        lemma_document_paths_add(a, b.drop_last());
        assert(document_paths(a + b) =~= document_paths(a) + document_paths(b));
    }
}

/// Every file of a tree is one document, and the documents come in the order of the tree.
pub proof fn lemma_documents_are_files(ts: Seq<Tree>, depth: int)
    ensures
        document_paths(all_entries(ts, depth)) == all_file_paths(ts),
    decreases ts,
{
    if ts.len() > 0 {
        lemma_documents_are_files(ts.drop_last(), depth);
        lemma_documents_of_tree(ts.last(), depth);
        lemma_document_paths_add(all_entries(ts.drop_last(), depth), entries_of(ts.last(), depth));
    }
}

proof fn lemma_documents_of_tree(t: Tree, depth: int)
    ensures
        document_paths(entries_of(t, depth)) == file_paths(t),
    decreases t,
{
    reveal_with_fuel(document_paths, 2);
    match t {
        Tree::File { path, .. } => {
            let e = entries_of(t, depth);
            assert(e.drop_last() =~= seq![]);
            assert(document_paths(e) =~= seq![path]);
        },
        Tree::Dir { name, path, children } => {
            lemma_documents_are_files(children, depth + 1);
            let head = seq![Entry::Section { name, dir_path: path, depth }];
            assert(head.drop_last() =~= seq![]);
            lemma_document_paths_add(head, all_entries(children, depth + 1));
            assert(document_paths(head) =~= seq![]);
            assert(document_paths(entries_of(t, depth)) =~= all_file_paths(children));
        },
    }
}

proof fn lemma_nesting_of_inserted(s: Seq<Tree>, x: Tree, le: spec_fn(Tree, Tree) -> bool)
    ensures
        max_nesting(inserted(s, x, le)) == max_nesting(s.push(x)),
    decreases s.len(),
{
    let out = inserted(s, x, le);
    reveal_with_fuel(max_nesting, 2);
    assert(s.push(x).drop_last() =~= s);
    if s.len() == 0 || le(s.last(), x) {
        assert(out =~= s.push(x));
    } else {
        let front = s.drop_last();
        lemma_nesting_of_inserted(front, x, le);
        assert(front.push(x).drop_last() =~= front);
        assert(out.drop_last() =~= inserted(front, x, le));
    }
}

proof fn lemma_nesting_of_sorted(s: Seq<Tree>, le: spec_fn(Tree, Tree) -> bool)
    ensures
        max_nesting(stable_sorted(s, le)) == max_nesting(s),
    decreases s.len(),
{
    if s.len() > 0 {
        let front = s.drop_last();
        let sorted = stable_sorted(front, le);
        lemma_nesting_of_sorted(front, le);
        lemma_nesting_of_inserted(sorted, s.last(), le);
        assert(sorted.push(s.last()).drop_last() =~= sorted);
    }
}

/// The tree of markdown files is nested no deeper than the directory that it is made from.
pub proof fn lemma_arranging_adds_no_level(
    ts: Seq<Tree>,
    orders: Map<Seq<char>, Seq<Seq<char>>>,
    root: Seq<char>,
)
    ensures
        max_nesting(in_order(all_arranged(ts, orders), orders, root)) <= max_nesting(ts),
    decreases ts, 2int,
{
    let kept = all_arranged(ts, orders);
    let sorted = stable_sorted(kept, by_name());
    lemma_arranged_nesting(ts, orders);
    lemma_nesting_of_sorted(kept, by_name());
    if orders.contains_key(root) {
        lemma_nesting_of_sorted(sorted, by_place(orders[root]));
    }
}

proof fn lemma_arranged_nesting(ts: Seq<Tree>, orders: Map<Seq<char>, Seq<Seq<char>>>)
    ensures
        max_nesting(all_arranged(ts, orders)) <= max_nesting(ts),
    decreases ts, 1int,
{
    if ts.len() > 0 {
        let front = ts.drop_last();
        lemma_arranged_nesting(front, orders);
        let kept = all_arranged(front, orders);
        let last = ts.last();
        assert(max_nesting(ts) >= nesting(last) && max_nesting(ts) >= max_nesting(front));
        match arranged(last, orders) {
            Some(a) => {
                assert(nesting(a) <= nesting(last)) by {
                    reveal_with_fuel(arranged, 2);
                    if let Tree::Dir { path, children, .. } = last {
                        lemma_arranging_adds_no_level(children, orders, path);
                        assert(a is Dir);
                    }
                }
                assert(kept.push(a).drop_last() =~= kept);
                assert(all_arranged(ts, orders) == kept.push(a));
                assert(max_nesting(kept.push(a)) <= max_nesting(ts));
            },
            None => {
                assert(all_arranged(ts, orders) == kept);
            },
        }
    }
}

} // verus!
