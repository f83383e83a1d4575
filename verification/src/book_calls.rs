//! What calls return of trees, documents and books, stated of their arguments and results.
use crate::anchors::{
    anchor, anchor_of, build_path_map, document_count, file_of, lemma_document_is_found,
};
use crate::book::{
    all_read, bind, body, book_html, book_of_reads, book_places, chapter_html, chapter_views,
    document_links, document_markdown, first_error, is_book_text, read_views, shown, source_title, source_views,
    strip_title, to_render, without_title, Chapter, Source,
};
use crate::chapter_laws::{
    lemma_blank_documents, lemma_book_shows_every_document, lemma_chapter_in_page,
    lemma_chapters_in_order,
    lemma_entries_in_table, lemma_errors_of_reading, lemma_first_title_is_taken_out,
    lemma_messages_of_reading, lemma_pages, lemma_text_without_title,
};
use crate::entries::{
    all_entries, all_file_paths, collect_doc_entries, doc_views, document_paths,
    lemma_documents_are_files, max_nesting, DocEntry, Entry,
};
use crate::entry_laws::{lemma_anchors, lemma_entry_of_each, value};
use crate::heading_laws::{
    lemma_documents_have_titles, lemma_numbered_directories, lemma_other_directories,
};
use crate::index_laws::{lemma_introductions, lemma_readmes, lemma_tables_are_left_out};
use crate::lines::{joined, lines};
use crate::links::{targets, TextMap};
use crate::listing_laws::lemma_markdown_file_is_in_tree;
use crate::markdown::{html_of, markdown_to_html, rendered};
use crate::outline::{toc_html, toc_views, TocItem};
use crate::page::{html_page, PAGE_END, PAGE_START, PAGE_STYLE};
use crate::path_laws::{is_name, lemma_file_names};
use crate::paths::{is_file_name_of, stem, text_of, texts_of};
use crate::text::{ascii_lowered, is_space, text_views, trim};
use crate::text_laws::is_blank;
use crate::title_laws::{lemma_separators_become_spaces, lemma_title_of_word};
use crate::titles::{
    dir_display_name, display_name_for, document_title, is_title_line, slug_to_title, stem_or_empty,
    title_of, upper,
};
use crate::toc::{
    begins_links, content_count, extract_intro, is_link_index, is_nav_only, is_readme, is_toc_entry,
    is_toc_heading, link_count, name_is_readme, strip_inline_toc, text_is_link_index,
    with_line_feeds,
};
use crate::tree::{build_tree, trees, FileNode, OrderConfig, Tree};
use vstd::prelude::*;

verus! {

/// The tree that `build_tree` returns holds a file of the directory exactly where the last three
/// characters of its name are a dot, an `m` and a `d`, in either case.
pub proof fn lemma_call_builds_trees(
    root: &str,
    listing: &Vec<FileNode>,
    order: &OrderConfig,
    nodes: Vec<FileNode>,
    i: int,
)
    requires
        call_ensures(build_tree, (root, listing, order), nodes),
        0 <= i < listing@.len(),
        listing@[i].tree() is File,
    ensures
        ({
            let name = listing@[i].tree()->File_name;
            let n = name.len() as int;
            trees(nodes@).contains(listing@[i].tree()) == (n >= 3 && name[n - 3] == '.' && (name[n
                - 2] == 'm' || name[n - 2] == 'M') && (name[n - 1] == 'd' || name[n - 1] == 'D'))
        }),
{
    assert(trees(listing@)[i] == listing@[i].tree());
    lemma_markdown_file_is_in_tree(trees(listing@), order@, root@, i);
}

/// `collect_doc_entries` returns a document for each file, in the order of the tree.
pub proof fn lemma_call_collects_documents(nodes: &Vec<FileNode>, depth: usize, out: Vec<DocEntry>)
    requires
        depth + max_nesting(trees(nodes@)) <= usize::MAX,
        call_ensures(collect_doc_entries, (nodes, depth), out),
    ensures
        document_paths(doc_views(out@)) == all_file_paths(trees(nodes@)),
{
    lemma_documents_are_files(trees(nodes@), depth as int);
}

/// What `collect_doc_entries` returns of a single node: the document that it is, or its heading and
/// then what it holds, one level deeper.
pub proof fn lemma_call_collects_each(nodes: &Vec<FileNode>, depth: usize, out: Vec<DocEntry>)
    requires
        nodes@.len() == 1,
        depth + max_nesting(trees(nodes@)) <= usize::MAX,
        call_ensures(collect_doc_entries, (nodes, depth), out),
    ensures
        nodes@[0].tree() matches Tree::File { name, path } ==> doc_views(out@) == seq![
            Entry::Document { path, depth: depth as int },
        ],
        nodes@[0].tree() matches Tree::Dir { name, path, children } ==> out@.len() > 0 && doc_views(
            out@,
        )[0] == (Entry::Section { name, dir_path: path, depth: depth as int }) && document_paths(
            doc_views(out@).skip(1),
        ) == all_file_paths(children),
{
    let t = nodes@[0].tree();
    assert(trees(nodes@) =~= seq![t]);
    match t {
        Tree::File { name, path } => {
            lemma_entry_of_each(name, path, seq![], depth as int);
        },
        Tree::Dir { name, path, children } => {
            lemma_entry_of_each(name, path, children, depth as int);
            lemma_documents_are_files(children, depth + 1);
            let d = depth as int;
            assert(doc_views(out@).skip(1) =~= all_entries(children, d + 1));
            assert(doc_views(out@).len() == out@.len());
        },
    }
}

/// `anchor_of` returns the number of a document in decimal digits behind `doc-`.
pub proof fn lemma_call_numbers_documents(k: usize, out: String)
    requires
        call_ensures(anchor_of, (k,), out),
    ensures
        out@.len() > 4,
        out@.take(4) == seq!['d', 'o', 'c', '-'],
        value(out@.skip(4)) == k,
{
    lemma_anchors(k as nat);
}

/// `book_html` returns a page in which every document with anything to show stands, behind a
/// heading with its anchor and its title. Without entries it returns an error.
pub proof fn lemma_call_binds_every_document(
    entries: &Vec<DocEntry>,
    sources: &Vec<Source>,
    title: &str,
    out: Result<String, String>,
    i: int,
    md: Seq<char>,
) -> (r: (Seq<char>, Seq<char>))
    requires
        call_ensures(book_html, (entries, sources, title), out),
        sources@.len() == document_count(doc_views(entries@), entries@.len() as int),
    ensures
        entries@.len() == 0 ==> (out matches Err(message) && message@
            == "No markdown files to export."@),
        entries@.len() > 0 ==> out is Ok,
        ({
            let all = doc_views(entries@);
            let docs = source_views(sources@);
            let k = document_count(all, i);
            let tag = if all[i]->Document_depth <= 1 {
                seq!['h', '1']
            } else {
                seq!['h', '2']
            };
            0 <= i < all.len() && all[i] is Document && to_render(
                docs[k as int],
                book_places(all, docs),
            ) == Some(md) ==> out->Ok_0@ == r.0 + ("<"@ + tag + " id=\""@ + anchor(k)
                + "\" class=\"doc-title\">"@ + source_title(docs[k as int]) + "</"@ + tag + ">\n"@
                + html_of(md)) + r.1
        }),
{
    let all = doc_views(entries@);
    let docs = source_views(sources@);
    let k = document_count(all, i);
    if 0 <= i < all.len() && all[i] is Document && to_render(docs[k as int], book_places(all, docs))
        == Some(md) {
        lemma_book_shows_every_document(all, docs, title@, i, md)
    } else {
        (seq![], seq![])
    }
}

/// The page that `bind` returns holds every chapter and every entry of the table of contents.
pub proof fn lemma_call_binds_chapters(
    items: &Vec<TocItem>,
    chapters: &Vec<Chapter>,
    title: &str,
    out: String,
    c: int,
) -> (r: (Seq<char>, Seq<char>))
    requires
        call_ensures(bind, (items, chapters, title), out),
        0 <= c < chapters@.len(),
    ensures
        ({
            let chapter = chapters@[c]@;
            let tag = if chapter.depth <= 1 {
                seq!['h', '1']
            } else {
                seq!['h', '2']
            };
            out@ == r.0 + ("<"@ + tag + " id=\""@ + chapter.anchor + "\" class=\"doc-title\">"@
                + chapter.title + "</"@ + tag + ">\n"@ + chapter.html) + r.1
        }),
{
    assert(chapter_views(chapters@)[c] == chapters@[c]@);
    lemma_chapter_in_page(toc_views(items@), chapter_views(chapters@), title@, c)
}

/// The page that `bind` returns holds the chapters in their order, and the table of contents that
/// `toc_html` returns before them.
pub proof fn lemma_calls_bind_in_order(
    items: &Vec<TocItem>,
    chapters: &Vec<Chapter>,
    title: &str,
    out: String,
    contents: String,
    c: int,
    d: int,
) -> (r: (Seq<char>, Seq<char>, Seq<char>))
    requires
        call_ensures(bind, (items, chapters, title), out),
        call_ensures(toc_html, (items,), contents),
        0 <= c < d < chapters@.len(),
    ensures
        out@ == r.0 + chapter_html(chapters@[c]@) + r.1 + chapter_html(chapters@[d]@) + r.2,
        (PAGE_START@ + title@ + PAGE_STYLE@ + contents@).is_prefix_of(out@),
{
    let all = chapter_views(chapters@);
    let text = toc_views(items@);
    assert(all[c] == chapters@[c]@ && all[d] == chapters@[d]@);
    lemma_pages(title@, seq![], text, all);
    let start = PAGE_START@ + title@ + PAGE_STYLE@;
    let front = start + contents@;
    assert(out@ =~= front + (body(all) + PAGE_END@));
    assert(out@.subrange(0, front.len() as int) =~= front);
    lemma_chapters_in_order(text, all, title@, c, d)
}

/// The table of contents that `toc_html` returns holds each entry: as a link where it has a place,
/// and else as a heading.
pub proof fn lemma_call_lists_entries(items: &Vec<TocItem>, out: String, i: int) -> (r: (
    Seq<char>,
    Seq<char>,
))
    requires
        call_ensures(toc_html, (items,), out),
        0 <= i < items@.len(),
    ensures
        ({
            let item = items@[i]@;
            let text = match item.anchor {
                Some(a) => "  <li><a href=\"#"@ + a + "\">"@ + item.display + "</a></li>\n"@,
                None => "  <li class=\"toc-section\"><strong>"@ + item.display + "</strong>\n"@,
            };
            out@ == r.0 + text + r.1
        }),
{
    assert(toc_views(items@)[i] == items@[i]@);
    lemma_entries_in_table(toc_views(items@), i)
}

/// `html_page` returns the title and the body as they are, in a frame that is the same for all.
pub proof fn lemma_call_frames_pages(text: &str, title: &str, out: String)
    requires
        call_ensures(html_page, (text, title), out),
    ensures
        out@ == PAGE_START@ + title@ + PAGE_STYLE@ + text@ + PAGE_END@,
{
}

/// `markdown_to_html` renders with every extension that documents use.
pub proof fn lemma_call_renders(md: &str, html: String)
    requires
        call_ensures(markdown_to_html, (md,), html),
    ensures
        html@ == rendered(md@, true, true, true, true, true),
{
}

/// `strip_title` takes out the first heading of the first level, and no other line.
pub proof fn lemma_call_takes_titles_out(
    text: &str,
    out: String,
    before: Seq<Seq<char>>,
    line: Seq<char>,
    behind: Seq<Seq<char>>,
)
    requires
        call_ensures(strip_title, (text,), out),
        forall|i: int| 0 <= i < before.len() ==> !is_title_line(trim(#[trigger] before[i])),
    ensures
        lines(text@) == before + seq![line] + behind && is_title_line(trim(line)) ==> out@
            == with_line_feeds(before + behind),
        lines(text@) == before ==> out@ == text@,
{
    if lines(text@) == before + seq![line] + behind && is_title_line(trim(line)) {
        lemma_first_title_is_taken_out(text@, before, line, behind);
    }
    if lines(text@) == before {
        lemma_text_without_title(text@);
    }
}

/// `all_read` returns all documents, or the first error.
pub proof fn lemma_call_returns_first_error(
    reads: Vec<Result<Source, String>>,
    out: Result<Vec<Source>, String>,
    k: int,
)
    requires
        call_ensures(all_read, (reads,), out),
        0 <= k <= reads@.len(),
        forall|i: int| 0 <= i < k ==> (#[trigger] reads@[i]) is Ok,
    ensures
        k < reads@.len() && reads@[k] is Err ==> (out matches Err(message) && message@
            == reads@[k]->Err_0@),
        k == reads@.len() ==> out is Ok && source_views(out->Ok_0@) == Seq::new(
            k as nat,
            |i: int| reads@[i]->Ok_0@,
        ),
{
    let good = reads@.take(k);
    assert forall|i: int| 0 <= i < good.len() implies (#[trigger] good[i]) is Ok by {
        assert(good[i] == reads@[i]);
    }
    if k < reads@.len() && reads@[k] is Err {
        lemma_errors_of_reading(good, reads@[k], reads@.skip(k + 1), 0);
        assert(good + (seq![reads@[k]] + reads@.skip(k + 1)) =~= reads@);
    }
    if k == reads@.len() {
        assert(good =~= reads@);
        if out is Ok {
            assert(source_views(out->Ok_0@) =~= Seq::new(k as nat, |i: int| reads@[i]->Ok_0@));
        } else {
            lemma_no_error(reads@);
        }
    }
}

/// Documents that were all read have no error among them.
pub proof fn lemma_no_error(reads: Seq<Result<Source, String>>)
    requires
        forall|i: int| 0 <= i < reads.len() ==> (#[trigger] reads[i]) is Ok,
    ensures
        first_error(reads) is None,
    decreases reads.len(),
{
    if reads.len() > 0 {
        assert(reads[0] is Ok);
        let rest = reads.skip(1);
        assert forall|i: int| 0 <= i < rest.len() implies (#[trigger] rest[i]) is Ok by {
            assert(rest[i] == reads[i + 1]);
        }
        lemma_no_error(rest);
    }
}

/// `extract_intro` returns what stands between the titles and the links of an index.
pub proof fn lemma_call_extracts_intros(
    content: &str,
    out: String,
    titles: Seq<Seq<char>>,
    text: Seq<Seq<char>>,
    links: Seq<Seq<char>>,
)
    requires
        call_ensures(extract_intro, (content,), out),
        lines(content@) == titles + (text + links),
        forall|i: int| 0 <= i < titles.len() ==> is_title_line(trim(#[trigger] titles[i])),
        text.len() + links.len() > 0 ==> !is_title_line(trim((text + links)[0])),
        forall|i: int| 0 <= i < text.len() ==> !begins_links(trim(#[trigger] text[i])),
        links.len() > 0 ==> begins_links(trim(links[0])),
    ensures
        out@ == trim(with_line_feeds(text)),
{
    lemma_introductions(content@, titles, text, links);
}

/// `strip_inline_toc` returns what stands before the table of contents that a text ends with.
pub proof fn lemma_call_strips_tables(
    content: &str,
    out: String,
    before: Seq<Seq<char>>,
    heading: Seq<char>,
    entries: Seq<Seq<char>>,
    k: int,
)
    requires
        call_ensures(strip_inline_toc, (content,), out),
        lines(content@) == before + (seq![heading] + entries),
        forall|i: int| 0 <= i < before.len() ==> !is_toc_heading(trim(#[trigger] before[i])),
        is_toc_heading(trim(heading)),
        forall|i: int|
            0 <= i < entries.len() ==> trim(#[trigger] entries[i]).len() == 0 || is_toc_entry(
                trim(entries[i]),
            ),
        0 <= k < entries.len(),
        is_toc_entry(trim(entries[k])),
    ensures
        out@ == joined(before, '\n'),
{
    lemma_tables_are_left_out(before, heading, entries, k);
}

/// `text_is_link_index` tells an index from its lines that count and from those that are links.
pub proof fn lemma_call_tells_indexes(content: &str, b: bool)
    requires
        call_ensures(text_is_link_index, (content,), b),
    ensures
        b <==> content_count(lines(content@)) >= 3 && 10 * link_count(lines(content@)) >= 7
            * content_count(lines(content@)),
{
}

/// `slug_to_title` returns a word with its first character in upper case, and of two parts of a
/// slug their titles with a space between them.
pub proof fn lemma_calls_make_titles(
    a: &str,
    b: &str,
    both: &str,
    d: char,
    x: String,
    y: String,
    z: String,
    i: int,
    j: int,
)
    requires
        call_ensures(slug_to_title, (a,), x),
        call_ensures(slug_to_title, (b,), y),
        call_ensures(slug_to_title, (both,), z),
        d == '-' || d == '_',
        both@ == a@ + seq![d] + b@,
    ensures
        a@.len() > 0 && !a@.contains('-') && !a@.contains('_') ==> x@ == upper(a@[0]) + a@.skip(1),
        0 <= i < a@.len() && a@[i] != '-' && a@[i] != '_' && 0 <= j < b@.len() && b@[j] != '-'
            && b@[j] != '_' ==> z@ == x@ + seq![' '] + y@,
{
    if a@.len() > 0 && !a@.contains('-') && !a@.contains('_') {
        lemma_title_of_word(a@);
    }
    if 0 <= i < a@.len() && a@[i] != '-' && a@[i] != '_' && 0 <= j < b@.len() && b@[j] != '-'
        && b@[j] != '_' {
        lemma_separators_become_spaces(a@, i, d, b@, j);
    }
}

/// `dir_display_name` returns the number and the title of a directory `part-N-slug`, and of any
/// other directory what `slug_to_title` returns.
pub proof fn lemma_calls_name_directories(
    name: &str,
    slug: &str,
    x: String,
    y: String,
    z: String,
    part: Seq<char>,
    number: Seq<char>,
)
    requires
        call_ensures(dir_display_name, (name,), x),
        call_ensures(slug_to_title, (name,), y),
        call_ensures(slug_to_title, (slug,), z),
        forall|i: int| 0 <= i < number.len() ==> '0' <= #[trigger] number[i] <= '9',
    ensures
        name@ == part + number + seq!['-'] + slug@ && ascii_lowered(part) == seq![
            'p',
            'a',
            'r',
            't',
            '-',
        ] ==> x@ == "Part "@ + number + " — "@ + z@,
        name@.len() < 5 || ascii_lowered(name@.take(5)) != seq!['p', 'a', 'r', 't', '-'] ==> x@
            == y@,
{
    if name@ == part + number + seq!['-'] + slug@ && ascii_lowered(part) == seq![
        'p',
        'a',
        'r',
        't',
        '-',
    ] {
        lemma_numbered_directories(part, number, slug@);
    }
    lemma_other_directories(name@, 0);
}

/// `title_of` returns the first heading of the first level of a document.
pub proof fn lemma_call_finds_titles(
    content: &str,
    stem: &str,
    out: String,
    before: Seq<Seq<char>>,
    indent: Seq<char>,
    space: Seq<char>,
    title: Seq<char>,
    tail: Seq<char>,
    behind: Seq<Seq<char>>,
)
    requires
        call_ensures(title_of, (content, stem), out),
        lines(content@) == before + (seq![indent + (seq!['#', ' '] + space + title) + tail]
            + behind),
        forall|i: int| 0 <= i < before.len() ==> !is_title_line(trim(#[trigger] before[i])),
        is_blank(indent),
        is_blank(space),
        is_blank(tail),
        title.len() > 0,
        title.len() == 1 || title[0] != '#' || title[1] != ' ',
        !is_space(title[0]),
        !is_space(title.last()),
    ensures
        out@ == title,
{
    lemma_documents_have_titles(content@, before, indent, space, title, tail, behind, stem@);
}

/// `document_markdown` returns nothing exactly where nothing but whitespace is shown of a document.
pub proof fn lemma_call_returns_markdown(source: &Source, path_map: &TextMap, out: Option<String>)
    requires
        call_ensures(document_markdown, (source, path_map), out),
    ensures
        out is None <==> is_blank(shown(source@, path_map@)),
        out matches Some(md) ==> md@ == without_title(shown(source@, path_map@)),
{
    lemma_blank_documents(source@, path_map@);
}

/// `document_links` returns the links of what `strip_inline_toc` returns.
pub proof fn lemma_calls_list_links(text: &str, rest: String, out: Vec<String>)
    requires
        call_ensures(strip_inline_toc, (text,), rest),
        call_ensures(document_links, (text,), out),
    ensures
        text_views(out@) == targets(lines(rest@), lines(rest@).len() as int),
{
}

/// The map that `build_path_map` returns leads from the file of a document to its place, where no
/// later document has that file.
pub proof fn lemma_call_maps_files(
    entries: &Vec<DocEntry>,
    files: &Vec<Option<String>>,
    map: TextMap,
    i: int,
)
    requires
        call_ensures(build_path_map, (entries, files), map),
        0 <= i < entries@.len(),
        doc_views(entries@)[i] is Document,
        forall|j: int|
            i < j < entries@.len() && (#[trigger] doc_views(entries@)[j]) is Document ==> file_of(
                texts_of(files@),
                document_count(doc_views(entries@), j) as int,
                doc_views(entries@)[j]->Document_path,
            ) != file_of(
                texts_of(files@),
                document_count(doc_views(entries@), i) as int,
                doc_views(entries@)[i]->Document_path,
            ),
    ensures
        ({
            let k = document_count(doc_views(entries@), i);
            let file = file_of(texts_of(files@), k as int, doc_views(entries@)[i]->Document_path);
            map@.contains_key(file) && map@[file] == anchor(k)
        }),
{
    lemma_document_is_found(
        doc_views(entries@),
        texts_of(files@),
        i,
        entries@.len() as int,
    );
}

/// `book_of_reads` returns what `book_html` returns of the documents, or the first error that
/// reading them gave.
pub proof fn lemma_calls_agree_on_books(
    entries: &Vec<DocEntry>,
    reads: Vec<Result<Source, String>>,
    sources: &Vec<Source>,
    title: &str,
    a: Result<String, String>,
    b: Result<String, String>,
    k: int,
)
    requires
        call_ensures(book_of_reads, (entries, reads, title), a),
        call_ensures(book_html, (entries, sources, title), b),
        reads@.len() == document_count(doc_views(entries@), entries@.len() as int),
        sources@.len() == reads@.len(),
        0 <= k <= reads@.len(),
        forall|i: int| 0 <= i < k ==> (#[trigger] reads@[i]) is Ok,
    ensures
        k == reads@.len() && (forall|i: int|
            0 <= i < k ==> (#[trigger] reads@[i])->Ok_0@ == sources@[i]@) ==> (a is Ok <==> b is Ok)
            && (a is Ok ==> a->Ok_0@ == b->Ok_0@) && (a is Err ==> a->Err_0@ == b->Err_0@),
        entries@.len() > 0 && k < reads@.len() && reads@[k] is Err ==> (a matches Err(message)
            && message@ == reads@[k]->Err_0@),
{
    let good = reads@.take(k);
    assert forall|i: int| 0 <= i < good.len() implies (#[trigger] good[i]) is Ok by {
        assert(good[i] == reads@[i]);
    }
    if k == reads@.len() {
        assert(good =~= reads@);
        lemma_no_error(reads@);
        if forall|i: int| 0 <= i < k ==> (#[trigger] reads@[i])->Ok_0@ == sources@[i]@ {
            assert(read_views(reads@) =~= source_views(sources@)) by {
                assert forall|i: int| 0 <= i < k implies read_views(reads@)[i] == source_views(
                    sources@,
                )[i] by {
                    assert(reads@[i]->Ok_0@ == sources@[i]@);
                }
            }
        }
    } else if reads@[k] is Err {
        lemma_errors_of_reading(good, reads@[k], reads@.skip(k + 1), 0);
        assert(good + (seq![reads@[k]] + reads@.skip(k + 1)) =~= reads@);
    }
}

/// `Source::from_read` returns the document that `Source::from_text` returns, or a message with its
/// path and the error.
pub proof fn lemma_call_reads_documents(
    path: &str,
    file: Option<String>,
    read: &Result<String, String>,
    out: Result<Source, String>,
)
    requires
        call_ensures(Source::from_read, (path, file, read), out),
    ensures
        *read matches Ok(raw) ==> (out matches Ok(source) && text_of(source.file) == text_of(file)
            && is_book_text(raw@, path@, source.text@) && is_file_name_of(
            path@,
            text_of(source.name),
        )),
        *read matches Err(error) ==> (out matches Err(message) && message@ == "Failed to read "@
            + path@ + seq![':', ' '] + error@),
{
    if let Err(error) = *read {
        lemma_messages_of_reading(path@, error@);
    }
}

/// `name_is_readme` knows the name of a readme in any case.
pub proof fn lemma_call_knows_readmes(name: &Option<String>, b: bool)
    requires
        call_ensures(name_is_readme, (name,), b),
    ensures
        *name matches Some(n) ==> b == (ascii_lowered(n@) == seq![
            'r', 'e', 'a', 'd', 'm', 'e', '.', 'm', 'd',
        ]),
        *name is None ==> !b,
{
    if let Some(n) = *name {
        lemma_readmes(n@);
    }
}

/// `is_nav_only` and `display_name_for` know a document by the name behind the last slash of its
/// path.
pub proof fn lemma_calls_know_documents(
    content: &str,
    path: &str,
    b: bool,
    index: bool,
    out: String,
    dir: Seq<char>,
    name: Seq<char>,
)
    requires
        call_ensures(is_nav_only, (content, path), b),
        call_ensures(text_is_link_index, (content,), index),
        call_ensures(display_name_for, (content, path), out),
        path@ == dir + seq!['/'] + name,
        is_name(name),
        !dir.contains('\\'),
        dir.len() > 0 ==> dir.len() == 1 || !(dir[0] == '/' && dir[1] == '/'),
        dir.len() == 1 ==> dir[0] != '/',
    ensures
        b == (index && ascii_lowered(name) == seq![
            'r', 'e', 'a', 'd', 'm', 'e', '.', 'm', 'd',
        ]),
        out@ == document_title(content@, stem(name)),
{
    lemma_readmes(name);
    let a = choose|n: Option<Seq<char>>|
        is_file_name_of(path@, n) && b == (#[trigger] is_readme(n) && is_link_index(content@));
    lemma_file_names(dir, name, a);
    let c = choose|n: Option<Seq<char>>|
        is_file_name_of(path@, n) && out@ == document_title(content@, #[trigger] stem_or_empty(n));
    lemma_file_names(dir, name, c);
}

} // verus!
