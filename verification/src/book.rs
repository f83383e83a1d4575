//! The book: every document of a directory on one page, behind a table of contents.
use crate::anchors::{anchor, anchor_of, build_path_map, document_count, places};
use crate::documents::{document_text, is_shown_text};
use crate::entries::{doc_views, DocEntry, Entry};
use crate::lines::{joined, lines, lines_of};
use crate::links::{
    anchors_of, md_link_targets, rewrite_md_links, rewritten_lines, targets, TextMap,
};
use crate::markdown::{html_of, markdown_to_html};
use crate::outline::{toc, toc_html, toc_views, TocEntry, TocItem};
use crate::page::{html_page, page};
use crate::paths::{
    file_name, is_file_name_of, is_parent_of, or_empty, parent_dir, stem_of, text_of, texts_of,
};
use crate::text::{appended, push_str, text_views, to_chars, to_text, trim, trim_chars};
use crate::titles::{
    dir_display_name, dir_title, document_title, is_title_line, line_is_title, stem_or_empty,
    title_of,
};
use crate::toc::{
    extract_intro, intro, is_link_index, is_readme, name_is_readme, push_line_feed,
    strip_inline_toc, text_is_link_index, with_line_feeds, without_toc,
};
use vstd::prelude::*;
use vstd::utf8::encode_utf8;

verus! {

/// A document of the book: the absolute path of its file, if there is one, its file name, its
/// text, and the files that the paths of its links lead to.
pub struct Source {
    pub file: Option<String>,
    pub name: Option<String>,
    pub text: String,
    pub links: TextMap,
}

/// A document as texts.
pub struct SourceView {
    pub file: Option<Seq<char>>,
    pub name: Option<Seq<char>>,
    pub text: Seq<char>,
    pub links: Map<Seq<char>, Seq<char>>,
}

impl View for Source {
    type V = SourceView;

    open spec fn view(&self) -> SourceView {
        SourceView {
            file: text_of(self.file),
            name: text_of(self.name),
            text: self.text@,
            links: self.links@,
        }
    }
}

impl Source {
    /// The document at `path` with the text `text`.
    pub fn new(path: &str, file: Option<String>, text: String, links: TextMap) -> (source: Self)
        ensures
            source@ == (SourceView {
                file: text_of(file),
                name: source@.name,
                text: text@,
                links: links@,
            }),
            is_file_name_of(path@, source@.name),
    {
        Source { file, name: file_name(path), text, links }
    }

    /// The document at `path`, of which `raw` was read: the images in its text lead to files, and
    /// its figures are HTML.
    pub fn from_text(path: &str, file: Option<String>, raw: &str, links: TextMap) -> (source: Self)
        ensures
            source@.file == text_of(file),
            source@.links == links@,
            is_file_name_of(path@, source@.name),
            is_book_text(raw@, path@, source@.text),
    {
        let dir = parent_dir(path);
        let ghost parent = choose|parent: Option<Seq<char>>|
            is_parent_of(path@, parent) && dir@ == #[trigger] or_empty(parent);
        let text = document_text(raw, dir.as_str());
        assert(is_shown_text(raw@, or_empty(parent), true, text@));
        Source::new(path, file, text, links)
    }

    /// The document at `path`, of which `read` is the text or the error that reading it gave. None
    /// of its links is known to lead to a file.
    pub fn from_read(
        path: &str,
        file: Option<String>,
        read: &Result<String, String>,
    ) -> (out: Result<Self, String>)
        ensures
            match (*read, out) {
                (Ok(raw), Ok(source)) => {
                    &&& source@.file == text_of(file)
                    &&& source@.links == Map::<Seq<char>, Seq<char>>::empty()
                    &&& is_file_name_of(path@, source@.name)
                    &&& is_book_text(raw@, path@, source@.text)
                },
                (Err(error), Err(message)) => message@ == unread(path@, error@),
                _ => false,
            },
    {
        match read {
            Ok(raw) => Ok(Source::from_text(path, file, raw.as_str(), TextMap::new())),
            Err(error) => {
                let at = appended("Failed to read ", path);
                let before = appended(at.as_str(), ": ");
                Err(appended(before.as_str(), error.as_str()))
            },
        }
    }
}

/// The message where reading the file at `path` gave `error`.
pub open spec fn unread(path: Seq<char>, error: Seq<char>) -> Seq<char> {
    "Failed to read "@ + path + ": "@ + error
}

/// The first error among `reads`.
pub open spec fn first_error(reads: Seq<Result<Source, String>>) -> Option<Seq<char>>
    decreases reads.len(),
{
    if reads.len() == 0 {
        None
    } else {
        match reads[0] {
            Err(message) => Some(message@),
            Ok(_) => first_error(reads.skip(1)),
        }
    }
}

/// The documents among `reads`.
pub open spec fn read_views(reads: Seq<Result<Source, String>>) -> Seq<SourceView> {
    reads.map_values(|r: Result<Source, String>| r->Ok_0@)
}

/// All the documents that were read, or the first error where one could not be read.
pub fn all_read(reads: Vec<Result<Source, String>>) -> (out: Result<Vec<Source>, String>)
    ensures
        match out {
            Ok(sources) => first_error(reads@) is None && source_views(sources@) == read_views(
                reads@,
            ),
            Err(message) => first_error(reads@) == Some(message@),
        },
{
    let ghost all = reads@;
    let mut rest = reads;
    let mut sources: Vec<Source> = Vec::new();
    assert(all.skip(0) =~= all);
    while rest.len() > 0
        invariant
            all == reads@,
            sources@.len() <= all.len(),
            rest@ == all.skip(sources@.len() as int),
            first_error(rest@) == first_error(all),
            forall|i: int| 0 <= i < sources@.len() ==> #[trigger] all[i] == Ok::<Source, String>(
                sources@[i],
            ),
        decreases rest@.len(),
    {
        let ghost before = rest@;
        let first = rest.remove(0);
        assert(first == before[0]);
        match first {
            Ok(source) => sources.push(source),
            Err(message) => return Err(message),
        }
        assert(rest@ =~= before.skip(1));
        assert(rest@ =~= all.skip(sources@.len() as int));
    }
    assert(source_views(sources@) =~= read_views(all));
    Ok(sources)
}

/// `out` is the text that the book is made from, where `raw` was read from the file at `path`: the
/// images in it lead from the directory of the file, and its figures are HTML.
pub open spec fn is_book_text(raw: Seq<char>, path: Seq<char>, out: Seq<char>) -> bool {
    exists|parent: Option<Seq<char>>|
        is_parent_of(path, parent) && is_shown_text(raw, #[trigger] or_empty(parent), true, out)
}

/// The views of a sequence of documents.
pub open spec fn source_views(sources: Seq<Source>) -> Seq<SourceView> {
    sources.map_values(|s: Source| s@)
}

/// The title of a document.
pub open spec fn source_title(source: SourceView) -> Seq<char> {
    document_title(source.text, stem_or_empty(source.name))
}

/// A document that is there for navigation only.
pub open spec fn is_nav(source: SourceView) -> bool {
    is_readme(source.name) && is_link_index(source.text)
}

/// A text without its table of contents.
pub open spec fn stripped(text: Seq<char>) -> Seq<char> {
    joined(without_toc(lines(text)), '\n')
}

/// The text of a document without its table of contents, and with its links to other documents
/// leading to their places in the book.
pub open spec fn relinked(source: SourceView, map: Map<Seq<char>, Seq<char>>) -> Seq<char> {
    joined(rewritten_lines(lines(stripped(source.text)), anchors_of(source.links, map)), '\n')
}

/// Whether `short` holds less than six tenths of the bytes of `long`.
pub open spec fn is_much_shorter(short: Seq<char>, long: Seq<char>) -> bool {
    encode_utf8(short).len() < encode_utf8(long).len() * 60 / 100
}

/// What is shown of a document, before its title is taken out: of one that is there for
/// navigation its introduction; of any other its text with its links rewritten, or its plain
/// text where too much would be lost.
pub open spec fn shown(source: SourceView, map: Map<Seq<char>, Seq<char>>) -> Seq<char> {
    if is_nav(source) {
        intro(source.text)
    } else if is_much_shorter(relinked(source, map), source.text) {
        source.text
    } else {
        relinked(source, map)
    }
}

/// The number of lines before the first title among `ls`.
pub open spec fn title_at(ls: Seq<Seq<char>>) -> int
    decreases ls.len(),
{
    if ls.len() == 0 || is_title_line(trim(ls[0])) {
        0
    } else {
        1 + title_at(ls.skip(1))
    }
}

/// A text without its first title. A text without a title stays as it is.
pub open spec fn without_title(text: Seq<char>) -> Seq<char> {
    let ls = lines(text);
    let at = title_at(ls);
    if at < ls.len() {
        with_line_feeds(ls.take(at) + ls.skip(at + 1))
    } else {
        text
    }
}

/// The markdown that is rendered of a document, if there is anything to show of it.
pub open spec fn to_render(source: SourceView, map: Map<Seq<char>, Seq<char>>) -> Option<
    Seq<char>,
> {
    if trim(shown(source, map)).len() == 0 {
        None
    } else {
        Some(without_title(shown(source, map)))
    }
}

/// The paths of the links that may be rewritten in a document with the text `text`.
pub fn document_links(text: &str) -> (out: Vec<String>)
    ensures
        text_views(out@) == targets(lines(stripped(text@)), lines(stripped(text@)).len() as int),
{
    let rest = strip_inline_toc(text);
    md_link_targets(rest.as_str())
}

/// A text without its first title. A text without a title stays as it is.
pub fn strip_title(text: &str) -> (out: String)
    ensures
        out@ == without_title(text@),
{
    let chars = to_chars(text);
    let ls = lines_of(chars.as_slice());
    let ghost all = lines(text@);
    let mut at: usize = 0;
    assert(all.skip(0) =~= all);
    while at < ls.len() && !line_is_title(trim_chars(ls[at]))
        invariant
            at <= ls.len(),
            ls@.len() == all.len(),
            forall|j: int| 0 <= j < ls@.len() ==> (#[trigger] ls@[j])@ == all[j],
            title_at(all) == at + title_at(all.skip(at as int)),
        decreases ls.len() - at,
    {
        assert(all.skip(at as int).skip(1) =~= all.skip(at + 1));
        at += 1;
    }
    if at == ls.len() {
        return to_text(chars.as_slice());
    }
    let ghost rest = all.take(at as int) + all.skip(at + 1);
    let ghost mut done: Seq<Seq<char>> = seq![];
    let mut out: Vec<char> = Vec::new();
    let mut i: usize = 0;
    while i < ls.len()
        invariant
            at < ls.len(),
            i <= ls.len(),
            ls@.len() == all.len(),
            forall|j: int| 0 <= j < ls@.len() ==> (#[trigger] ls@[j])@ == all[j],
            rest == all.take(at as int) + all.skip(at + 1),
            done == rest.take(
                if i <= at {
                    i as int
                } else {
                    i - 1
                },
            ),
            out@ == with_line_feeds(done),
        decreases ls.len() - i,
    {
        if i != at {
            push_line_feed(&mut out, ls[i], Ghost(done));
            proof {
                done = done.push(all[i as int]);
            }
        }
        i += 1;
        assert(done =~= rest.take(
            if i <= at {
                i as int
            } else {
                i - 1
            },
        ));
    }
    assert(done =~= rest);
    to_text(out.as_slice())
}

fn bytes_are_fewer(short: &str, long: &str) -> (b: bool)
    ensures
        b == is_much_shorter(short@, long@),
{
    let less = short.as_bytes().len();
    let more = long.as_bytes().len();
    (less as u128) < more as u128 * 60 / 100
}

/// The markdown that is rendered of a document, if there is anything to show of it.
pub fn document_markdown(source: &Source, path_map: &TextMap) -> (out: Option<String>)
    ensures
        text_of(out) == to_render(source@, path_map@),
{
    let text = source.text.as_str();
    let whole = if name_is_readme(&source.name) && text_is_link_index(text) {
        extract_intro(text)
    } else {
        let rest = strip_inline_toc(text);
        let rewritten = rewrite_md_links(rest.as_str(), &source.links, path_map);
        if bytes_are_fewer(rewritten.as_str(), text) {
            source.text.clone()
        } else {
            rewritten
        }
    };
    assert(whole@ == shown(source@, path_map@));
    let chars = to_chars(whole.as_str());
    if trim_chars(chars.as_slice()).len() == 0 {
        None
    } else {
        Some(strip_title(whole.as_str()))
    }
}

/// A rendered document of the book.
pub struct Chapter {
    pub depth: usize,
    pub anchor: String,
    pub title: String,
    pub html: String,
}

/// A rendered document of the book, as texts.
pub struct ChapterView {
    pub depth: int,
    pub anchor: Seq<char>,
    pub title: Seq<char>,
    pub html: Seq<char>,
}

impl View for Chapter {
    type V = ChapterView;

    open spec fn view(&self) -> ChapterView {
        ChapterView {
            depth: self.depth as int,
            anchor: self.anchor@,
            title: self.title@,
            html: self.html@,
        }
    }
}

/// The views of a sequence of rendered documents.
pub open spec fn chapter_views(chapters: Seq<Chapter>) -> Seq<ChapterView> {
    chapters.map_values(|c: Chapter| c@)
}

/// The HTML element of the heading of a document: a large one on the upper two levels.
pub open spec fn heading_tag(depth: int) -> Seq<char> {
    if depth <= 1 {
        "h1"@
    } else {
        "h2"@
    }
}

/// A rendered document below its heading.
pub open spec fn chapter_html(c: ChapterView) -> Seq<char> {
    "<"@ + heading_tag(c.depth) + " id=\""@ + c.anchor + "\" class=\"doc-title\">"@ + c.title
        + "</"@ + heading_tag(c.depth) + ">\n"@ + c.html
}

/// The rendered documents, each on a page of its own.
pub open spec fn body(chapters: Seq<ChapterView>) -> Seq<char>
    decreases chapters.len(),
{
    if chapters.len() == 0 {
        seq![]
    } else if chapters.len() == 1 {
        chapter_html(chapters[0])
    } else {
        body(chapters.drop_last()) + "<div style=\"page-break-before:always\"></div>\n"@
            + chapter_html(chapters.last())
    }
}

/// The page of a book with the title `title`: a table of contents with the entries `items`, and
/// behind it the documents.
pub open spec fn bound(
    items: Seq<TocEntry>,
    chapters: Seq<ChapterView>,
    title: Seq<char>,
) -> Seq<char> {
    page(toc(items) + body(chapters), title)
}

fn push_chapter(out: &mut Vec<char>, c: &Chapter)
    ensures
        final(out)@ == old(out)@ + chapter_html(c@),
{
    let tag = if c.depth <= 1 {
        "h1"
    } else {
        "h2"
    };
    push_str(out, "<");
    push_str(out, tag);
    push_str(out, " id=\"");
    push_str(out, c.anchor.as_str());
    push_str(out, "\" class=\"doc-title\">");
    push_str(out, c.title.as_str());
    push_str(out, "</");
    push_str(out, tag);
    push_str(out, ">\n");
    push_str(out, c.html.as_str());
    assert(out@ =~= old(out)@ + chapter_html(c@));
}

/// The page of a book with the title `title`: a table of contents with the entries `items`, and
/// behind it the documents, each on a page of its own.
pub fn bind(items: &Vec<TocItem>, chapters: &Vec<Chapter>, title: &str) -> (out: String)
    ensures
        out@ == bound(toc_views(items@), chapter_views(chapters@), title@),
{
    let contents = toc_html(items);
    let ghost all = chapter_views(chapters@);
    let mut text = to_chars(contents.as_str());
    let mut i: usize = 0;
    assert(text@ =~= contents@ + body(all.take(0)));
    while i < chapters.len()
        invariant
            i <= chapters.len(),
            all == chapter_views(chapters@),
            text@ == contents@ + body(all.take(i as int)),
        decreases chapters.len() - i,
    {
        let ghost before = text@;
        if i > 0 {
            push_str(&mut text, "<div style=\"page-break-before:always\"></div>\n");
        }
        push_chapter(&mut text, &chapters[i]);
        i += 1;
        proof {
            let ready = all.take(i as int);
            assert(ready.last() == chapters@[i - 1]@);
            assert(ready.drop_last() =~= all.take(i - 1));
            assert(text@ =~= contents@ + body(ready));
        }
    }
    assert(all.take(all.len() as int) =~= all);
    let full = to_text(text.as_slice());
    html_page(full.as_str(), title)
}

/// The entries of the table of contents for the first `n` of `entries`: directories and documents
/// that are there for navigation are headings, any other document leads to its place.
pub open spec fn contents(entries: Seq<Entry>, sources: Seq<SourceView>, n: int) -> Seq<TocEntry>
    decreases n,
{
    if n <= 0 {
        seq![]
    } else {
        let front = contents(entries, sources, n - 1);
        match entries[n - 1] {
            Entry::Section { name, depth, .. } => front.push(
                TocEntry { depth, display: dir_title(name), anchor: None },
            ),
            Entry::Document { depth, .. } => {
                let k = document_count(entries, n - 1);
                let source = sources[k as int];
                front.push(
                    TocEntry {
                        depth,
                        display: source_title(source),
                        anchor: if is_nav(source) {
                            None
                        } else {
                            Some(anchor(k))
                        },
                    },
                )
            },
        }
    }
}

/// The rendered documents among the first `n` of `entries`, as far as there is anything to show
/// of them.
pub open spec fn chapters_of(
    entries: Seq<Entry>,
    sources: Seq<SourceView>,
    map: Map<Seq<char>, Seq<char>>,
    n: int,
) -> Seq<ChapterView>
    decreases n,
{
    if n <= 0 {
        seq![]
    } else {
        let front = chapters_of(entries, sources, map, n - 1);
        match entries[n - 1] {
            Entry::Section { .. } => front,
            Entry::Document { depth, .. } => {
                let k = document_count(entries, n - 1);
                match to_render(sources[k as int], map) {
                    None => front,
                    Some(md) => front.push(
                        ChapterView {
                            depth,
                            anchor: anchor(k),
                            title: source_title(sources[k as int]),
                            html: html_of(md),
                        },
                    ),
                }
            },
        }
    }
}

/// The absolute paths of the files of documents.
pub open spec fn files_of(sources: Seq<SourceView>) -> Seq<Option<Seq<char>>> {
    sources.map_values(|s: SourceView| s.file)
}

/// The places in the book of the files of its documents.
pub open spec fn book_places(entries: Seq<Entry>, sources: Seq<SourceView>) -> Map<
    Seq<char>,
    Seq<char>,
> {
    places(entries, files_of(sources), entries.len() as int)
}

/// The page of the book with the title `title` that holds the documents of `entries`. `sources`
/// holds those documents, one by one.
pub open spec fn book(
    entries: Seq<Entry>,
    sources: Seq<SourceView>,
    title: Seq<char>,
) -> Seq<char> {
    let n = entries.len() as int;
    bound(
        contents(entries, sources, n),
        chapters_of(entries, sources, book_places(entries, sources), n),
        title,
    )
}

fn source_files(sources: &Vec<Source>) -> (files: Vec<Option<String>>)
    ensures
        texts_of(files@) == files_of(source_views(sources@)),
{
    let mut files: Vec<Option<String>> = Vec::new();
    let mut i: usize = 0;
    while i < sources.len()
        invariant
            i <= sources.len(),
            files@.len() == i,
            forall|j: int|
                0 <= j < i ==> text_of(#[trigger] files@[j]) == text_of(sources@[j].file),
        decreases sources.len() - i,
    {
        let file = match &sources[i].file {
            Some(f) => Some(f.clone()),
            None => None,
        };
        assert(text_of(file) == text_of(sources@[i as int].file));
        files.push(file);
        i += 1;
    }
    assert(texts_of(files@) =~= files_of(source_views(sources@)));
    files
}

fn toc_item(source: &Source, depth: usize, k: usize) -> (item: TocItem)
    ensures
        item@ == (TocEntry {
            depth: depth as int,
            display: source_title(source@),
            anchor: if is_nav(source@) {
                None
            } else {
                Some(anchor(k as nat))
            },
        }),
{
    let nav = name_is_readme(&source.name) && text_is_link_index(source.text.as_str());
    TocItem {
        depth,
        display: title_of_source(source),
        anchor: if nav {
            None
        } else {
            Some(anchor_of(k))
        },
    }
}

fn title_of_source(source: &Source) -> (title: String)
    ensures
        title@ == source_title(source@),
{
    match &source.name {
        Some(name) => {
            let stem = stem_of(name.as_str());
            title_of(source.text.as_str(), stem.as_str())
        },
        None => {
            let stem = String::new();
            assert(stem@ =~= stem_or_empty(None));
            title_of(source.text.as_str(), stem.as_str())
        },
    }
}

/// The page of the book with the title `title` that holds the documents of `entries`. `sources`
/// holds those documents, one by one. There is no book without entries.
pub fn book_html(entries: &Vec<DocEntry>, sources: &Vec<Source>, title: &str) -> (out: Result<
    String,
    String,
>)
    requires
        sources@.len() == document_count(doc_views(entries@), entries@.len() as int),
    ensures
        match out {
            Ok(html) => entries@.len() > 0 && html@ == book(
                doc_views(entries@),
                source_views(sources@),
                title@,
            ),
            Err(message) => entries@.len() == 0 && message@ == "No markdown files to export."@,
        },
{
    if entries.len() == 0 {
        return Err("No markdown files to export.".to_string());
    }
    let ghost all = doc_views(entries@);
    let ghost docs = source_views(sources@);
    let files = source_files(sources);
    let map = build_path_map(entries, &files);
    let mut items: Vec<TocItem> = Vec::new();
    let mut chapters: Vec<Chapter> = Vec::new();
    let mut k: usize = 0;
    let mut i: usize = 0;
    assert(toc_views(items@) =~= contents(all, docs, 0));
    assert(chapter_views(chapters@) =~= chapters_of(all, docs, map@, 0));
    while i < entries.len()
        invariant
            i <= entries.len(),
            all == doc_views(entries@),
            docs == source_views(sources@),
            sources@.len() == document_count(all, entries@.len() as int),
            k == document_count(all, i as int),
            k <= i,
            toc_views(items@) == contents(all, docs, i as int),
            chapter_views(chapters@) == chapters_of(all, docs, map@, i as int),
        decreases entries.len() - i,
    {
        let ghost items0 = items@;
        let ghost chapters0 = chapters@;
        assert(all[i as int] == entries@[i as int]@);
        proof {
            lemma_document_count_grows(all, i as int, entries@.len() as int);
        }
        match &entries[i] {
            DocEntry::Section { name, depth, .. } => {
                let item = TocItem {
                    depth: *depth,
                    display: dir_display_name(name.as_str()),
                    anchor: None,
                };
                items.push(item);
                assert(toc_views(items@) =~= toc_views(items0).push(item@));
            },
            DocEntry::Document { depth, .. } => {
                proof {
                    lemma_document_count_grows(all, i + 1, entries@.len() as int);
                }
                let source = &sources[k];
                assert(docs[k as int] == source@);
                let item = toc_item(source, *depth, k);
                items.push(item);
                assert(toc_views(items@) =~= toc_views(items0).push(item@));
                if let Some(md) = document_markdown(source, &map) {
                    let chapter = Chapter {
                        depth: *depth,
                        anchor: anchor_of(k),
                        title: title_of_source(source),
                        html: markdown_to_html(md.as_str()),
                    };
                    chapters.push(chapter);
                    assert(chapter_views(chapters@) =~= chapter_views(chapters0).push(chapter@));
                }
                k += 1;
            },
        }
        i += 1;
    }
    Ok(bind(&items, &chapters, title))
}

/// The page of the book with the title `title` that holds the documents of `entries`, of which
/// `reads` are the documents or the errors that reading them gave, one by one. There is no book
/// without entries, and none where a document could not be read.
pub fn book_of_reads(
    entries: &Vec<DocEntry>,
    reads: Vec<Result<Source, String>>,
    title: &str,
) -> (out: Result<String, String>)
    requires
        reads@.len() == document_count(doc_views(entries@), entries@.len() as int),
    ensures
        match out {
            Ok(html) => entries@.len() > 0 && first_error(reads@) is None && html@ == book(
                doc_views(entries@),
                read_views(reads@),
                title@,
            ),
            Err(message) => if entries@.len() == 0 {
                message@ == "No markdown files to export."@
            } else {
                first_error(reads@) == Some(message@)
            },
        },
{
    match all_read(reads) {
        Ok(sources) => {
            assert(source_views(sources@).len() == reads@.len());
            book_html(entries, &sources, title)
        },
        Err(message) => {
            assert(entries@.len() > 0);
            Err(message)
        },
    }
}

proof fn lemma_document_count_grows(entries: Seq<Entry>, a: int, b: int)
    requires
        a <= b,
    ensures
        document_count(entries, a) <= document_count(entries, b),
    decreases b - a,
{
    if a < b {
        lemma_document_count_grows(entries, a, b - 1);
    }
}

} // verus!
