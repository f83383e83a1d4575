//! What holds of every book.
use crate::anchors::{
    anchor, document_count, file_of, lemma_anchors_differ, lemma_document_is_found,
};
use crate::book::{
    book_places, chapters_of, contents, files_of, is_nav, relinked, shown, source_title, to_render,
    ChapterView, SourceView,
};
use crate::entries::{all_entries, document_paths, lemma_documents_are_files, Entry};
use crate::lines::{joined, lemma_joined_lines_make_text, lemma_lines_of_joined, lines};
use crate::links::{anchors_of, lemma_unresolved_links_stay};
use crate::markdown::html_of;
use crate::text::trim;
use crate::titles::dir_title;
use crate::toc::{is_toc_heading, lemma_lines_without_toc};
use crate::tree::{all_arranged, in_order, Tree};
use crate::tree_laws::{all_md_paths, lemma_built_tree_keeps_files};
use vstd::prelude::*;
use vstd::utf8::encode_utf8;

verus! {

/// The table of contents lists every directory and every document, in their order and on their
/// levels.
pub proof fn lemma_every_entry_is_listed(
    entries: Seq<Entry>,
    sources: Seq<SourceView>,
    i: int,
    n: int,
)
    requires
        0 <= i < n <= entries.len(),
    ensures
        contents(entries, sources, n).len() == n,
        match entries[i] {
            Entry::Section { name, depth, .. } => {
                &&& contents(entries, sources, n)[i].depth == depth
                &&& contents(entries, sources, n)[i].display == dir_title(name)
                &&& contents(entries, sources, n)[i].anchor is None
            },
            Entry::Document { depth, .. } => {
                let k = document_count(entries, i);
                &&& contents(entries, sources, n)[i].depth == depth
                &&& contents(entries, sources, n)[i].display == source_title(sources[k as int])
                &&& contents(entries, sources, n)[i].anchor == if is_nav(sources[k as int]) {
                    None
                } else {
                    Some(anchor(k))
                }
            },
        },
    decreases n,
{
    lemma_contents_len(entries, sources, n - 1);
    if i < n - 1 {
        lemma_every_entry_is_listed(entries, sources, i, n - 1);
    }
}

proof fn lemma_contents_len(entries: Seq<Entry>, sources: Seq<SourceView>, n: int)
    requires
        0 <= n <= entries.len(),
    ensures
        contents(entries, sources, n).len() == n,
    decreases n,
{
    if n > 0 {
        lemma_contents_len(entries, sources, n - 1);
    }
}

/// The book of a directory is made from every markdown file in it, each as often as the directory
/// holds it, and from no other file.
pub proof fn lemma_book_holds_every_file(
    listing: Seq<Tree>,
    orders: Map<Seq<char>, Seq<Seq<char>>>,
    root: Seq<char>,
)
    ensures
        document_paths(
            all_entries(in_order(all_arranged(listing, orders), orders, root), 0),
        ).to_multiset() == all_md_paths(listing).to_multiset(),
{
    let ts = in_order(all_arranged(listing, orders), orders, root);
    lemma_documents_are_files(ts, 0);
    lemma_built_tree_keeps_files(listing, orders, root);
}

/// A document of which there is anything to show stands in the book, below its title and at the
/// place that links to it lead to.
pub proof fn lemma_documents_are_chapters(
    entries: Seq<Entry>,
    sources: Seq<SourceView>,
    map: Map<Seq<char>, Seq<char>>,
    i: int,
    n: int,
)
    requires
        0 <= i < n <= entries.len(),
        entries[i] is Document,
        to_render(sources[document_count(entries, i) as int], map) is Some,
    ensures
        ({
            let k = document_count(entries, i);
            chapters_of(entries, sources, map, n).contains(
                ChapterView {
                    depth: entries[i]->Document_depth,
                    anchor: anchor(k),
                    title: source_title(sources[k as int]),
                    html: html_of(to_render(sources[k as int], map)->0),
                },
            )
        }),
    decreases n,
{
    let k = document_count(entries, i);
    let chapter = ChapterView {
        depth: entries[i]->Document_depth,
        anchor: anchor(k),
        title: source_title(sources[k as int]),
        html: html_of(to_render(sources[k as int], map)->0),
    };
    let all = chapters_of(entries, sources, map, n);
    let front = chapters_of(entries, sources, map, n - 1);
    if i < n - 1 {
        lemma_documents_are_chapters(entries, sources, map, i, n - 1);
        let at = front.index_of(chapter);
        assert(all[at] == front[at]);
    } else {
        assert(all.last() == chapter);
    }
}

/// Nothing but documents stands in the book, each at its own place.
pub proof fn lemma_chapters_are_documents(
    entries: Seq<Entry>,
    sources: Seq<SourceView>,
    map: Map<Seq<char>, Seq<char>>,
    c: int,
    n: int,
)
    requires
        0 <= n <= entries.len(),
        0 <= c < chapters_of(entries, sources, map, n).len(),
    ensures
        exists|i: int|
            0 <= i < n && (#[trigger] entries[i]) is Document && chapters_of(
                entries,
                sources,
                map,
                n,
            )[c].anchor == anchor(document_count(entries, i)),
    decreases n,
{
    let front = chapters_of(entries, sources, map, n - 1);
    if c < front.len() {
        lemma_chapters_are_documents(entries, sources, map, c, n - 1);
        let i = choose|i: int|
            0 <= i < n - 1 && (#[trigger] entries[i]) is Document && front[c].anchor == anchor(
                document_count(entries, i),
            );
        assert(entries[i] is Document);
    } else {
        assert(entries[n - 1] is Document);
    }
}

/// No two documents stand at one place.
pub proof fn lemma_places_differ(
    entries: Seq<Entry>,
    sources: Seq<SourceView>,
    map: Map<Seq<char>, Seq<char>>,
    a: int,
    b: int,
    n: int,
)
    requires
        0 <= n <= entries.len(),
        0 <= a < b < chapters_of(entries, sources, map, n).len(),
    ensures
        chapters_of(entries, sources, map, n)[a].anchor != chapters_of(
            entries,
            sources,
            map,
            n,
        )[b].anchor,
    decreases n,
{
    let front = chapters_of(entries, sources, map, n - 1);
    if b < front.len() {
        lemma_places_differ(entries, sources, map, a, b, n - 1);
    } else {
        lemma_chapters_are_documents(entries, sources, map, a, n - 1);
        let i = choose|i: int|
            0 <= i < n - 1 && (#[trigger] entries[i]) is Document && front[a].anchor == anchor(
                document_count(entries, i),
            );
        lemma_document_counts_differ(entries, i, n - 1);
        lemma_anchors_differ(document_count(entries, i), document_count(entries, n - 1));
    }
}

proof fn lemma_document_counts_differ(entries: Seq<Entry>, i: int, n: int)
    requires
        0 <= i < n,
        entries[i] is Document,
    ensures
        document_count(entries, i) < document_count(entries, n),
    decreases n,
{
    if i < n - 1 {
        lemma_document_counts_differ(entries, i, n - 1);
    }
}

/// Links between documents work in the book: where a link of the document `from` leads to the
/// file of a document, and no later document has that file, the link is rewritten to the place at
/// which that document stands.
pub proof fn lemma_links_lead_to_documents(
    entries: Seq<Entry>,
    sources: Seq<SourceView>,
    from: SourceView,
    path: Seq<char>,
    i: int,
)
    requires
        0 <= i < entries.len(),
        entries[i] is Document,
        sources.len() == document_count(entries, entries.len() as int),
        from.links.contains_key(path),
        from.links[path] == document_file(entries, sources, i),
        forall|j: int|
            i < j < entries.len() && (#[trigger] entries[j]) is Document ==> document_file(
                entries,
                sources,
                j,
            ) != document_file(entries, sources, i),
    ensures
        ({
            let k = document_count(entries, i);
            let map = book_places(entries, sources);
            let n = entries.len() as int;
            &&& anchors_of(from.links, map).contains_key(path)
            &&& anchors_of(from.links, map)[path] == anchor(k)
            &&& to_render(sources[k as int], map) is Some ==> exists|c: int|
                0 <= c < chapters_of(entries, sources, map, n).len() && (#[trigger] chapters_of(
                    entries,
                    sources,
                    map,
                    n,
                )[c]).anchor == anchor(k)
        }),
{
    let n = entries.len() as int;
    let k = document_count(entries, i);
    let map = book_places(entries, sources);
    let files = files_of(sources);
    assert forall|j: int| i < j < n && (#[trigger] entries[j]) is Document implies file_of(
        files,
        document_count(entries, j) as int,
        entries[j]->Document_path,
    ) != file_of(files, document_count(entries, i) as int, entries[i]->Document_path) by {
        assert(document_file(entries, sources, j) != document_file(entries, sources, i));
    }
    lemma_document_is_found(entries, files, i, n);
    if to_render(sources[k as int], map) is Some {
        lemma_documents_are_chapters(entries, sources, map, i, n);
        let all = chapters_of(entries, sources, map, n);
        let chapter = ChapterView {
            depth: entries[i]->Document_depth,
            anchor: anchor(k),
            title: source_title(sources[k as int]),
            html: html_of(to_render(sources[k as int], map)->0),
        };
        let c = all.index_of(chapter);
        assert(all[c].anchor == anchor(k));
    }
}

/// The file of the document that `entries` holds at `i`.
pub open spec fn document_file(
    entries: Seq<Entry>,
    sources: Seq<SourceView>,
    i: int,
) -> Seq<char> {
    file_of(
        files_of(sources),
        document_count(entries, i) as int,
        entries[i]->Document_path,
    )
}

/// A document with no table of contents in it and no link into the book is shown as it is, at most
/// without the line feed at its end. Its lines end in line feeds alone, and its last line is not
/// empty.
pub proof fn lemma_plain_text_is_shown(source: SourceView, map: Map<Seq<char>, Seq<char>>)
    requires
        !is_nav(source),
        !source.text.contains('\r'),
        lines(source.text).len() > 0 ==> lines(source.text).last().len() > 0,
        forall|i: int|
            0 <= i < lines(source.text).len() ==> !is_toc_heading(
                trim(#[trigger] lines(source.text)[i]),
            ),
        forall|path: Seq<char>|
            source.links.contains_key(path) ==> !map.contains_key(#[trigger] source.links[path]),
    ensures
        shown(source, map) == source.text || shown(source, map).push('\n') == source.text,
{
    let ls = lines(source.text);
    lemma_joined_lines_make_text(source.text);
    lemma_lines_without_toc(ls);
    lemma_lines_of_joined(ls);
    assert(anchors_of(source.links, map) =~= Map::empty());
    lemma_unresolved_links_stay(ls);
    assert(relinked(source, map) == joined(ls, '\n'));
}

/// What is shown of a document holds at least six tenths of the bytes of its text, whatever its
/// table of contents and its links are, unless the document is there for navigation only.
pub proof fn lemma_text_is_not_lost(source: SourceView, map: Map<Seq<char>, Seq<char>>)
    requires
        !is_nav(source),
    ensures
        encode_utf8(shown(source, map)).len() >= encode_utf8(source.text).len() * 60 / 100,
{
}

} // verus!
