//! What the page of a book holds: its table of contents, and every document behind its heading.
use crate::anchors::{anchor, document_count};
use crate::book::{
    body, book, book_places, bound, chapter_html, chapters_of, contents, files_of, first_error,
    is_nav, read_views, relinked, shown, source_title, title_at, to_render, unread, without_title,
    ChapterView, Source, SourceView,
};
use crate::book_laws::lemma_documents_are_chapters;
use crate::entries::Entry;
use crate::index_laws::lemma_what_is_left_out;
use crate::lines::{is_line, joined, lemma_lines_of_joined, lines};
use crate::links::{anchors_of, rewritten_lines};
use crate::markdown::{html_of, rendered};
use crate::outline::{
    closed, entries_html, entry_html, open_lists, opened, repeated, toc, TocEntry,
};
use crate::page::{page, PAGE_END, PAGE_START, PAGE_STYLE};
use crate::paths::stem;
use crate::text::{is_space, trim};
use crate::text_laws::{is_blank, lemma_parts_of_trimming, lemma_trimming};
use crate::titles::{document_title, is_title_line};
use crate::toc::{intro, is_link_index, is_readme, with_line_feeds, without_toc};
use vstd::prelude::*;
use vstd::utf8::encode_utf8;

verus! {

/// A document stands in the book behind a heading with its anchor and its title: a large heading on
/// the upper two levels, and a smaller one below them.
pub proof fn lemma_headings(c: ChapterView)
    ensures
        c.depth <= 1 ==> chapter_html(c) == "<"@ + seq!['h', '1'] + " id=\""@ + c.anchor
            + "\" class=\"doc-title\">"@ + c.title + "</"@ + seq!['h', '1'] + ">\n"@ + c.html,
        c.depth > 1 ==> chapter_html(c) == "<"@ + seq!['h', '2'] + " id=\""@ + c.anchor
            + "\" class=\"doc-title\">"@ + c.title + "</"@ + seq!['h', '2'] + ">\n"@ + c.html,
{
    reveal_strlit("h1");
    reveal_strlit("h2");
    assert("h1"@ =~= seq!['h', '1']);
    assert("h2"@ =~= seq!['h', '2']);
}

/// The documents of a book stand in a row, all of them, with a page break between each two.
pub proof fn lemma_documents_in_a_row(a: Seq<ChapterView>, b: Seq<ChapterView>, c: ChapterView)
    ensures
        body(seq![]) == Seq::<char>::empty(),
        body(seq![c]) == chapter_html(c),
        a.len() > 0 ==> body(a.push(c)) == body(a)
            + "<div style=\"page-break-before:always\"></div>\n"@ + chapter_html(c),
        a.len() > 0 && b.len() > 0 ==> body(a + b) == body(a)
            + "<div style=\"page-break-before:always\"></div>\n"@ + body(b),
    decreases b.len(),
{
    let brk = "<div style=\"page-break-before:always\"></div>\n"@;
    assert(a.push(c).drop_last() =~= a);
    if a.len() > 0 && b.len() > 0 {
        let front = b.drop_last();
        let last = b.last();
        assert((a + b).drop_last() =~= a + front);
        if b.len() == 1 {
            assert(a + front =~= a);
            assert(body(b) == chapter_html(last));
        } else {
            lemma_documents_in_a_row(a, front, c);
            assert(body(a + b) =~= body(a) + brk + body(b));
        }
    }
}

proof fn lemma_chapter_in_body(chapters: Seq<ChapterView>, c: int) -> (r: (Seq<char>, Seq<char>))
    requires
        0 <= c < chapters.len(),
    ensures
        body(chapters) == r.0 + chapter_html(chapters[c]) + r.1,
{
    let none = Seq::<char>::empty();
    let brk = "<div style=\"page-break-before:always\"></div>\n"@;
    let a = chapters.take(c);
    let b = chapters.skip(c + 1);
    let one = chapters[c];
    let front = a.push(one);
    assert(chapters =~= front + b);
    lemma_documents_in_a_row(front, b, one);
    lemma_documents_in_a_row(a, b, one);
    let before = if a.len() > 0 {
        body(a) + brk
    } else {
        none
    };
    let behind = if b.len() > 0 {
        brk + body(b)
    } else {
        none
    };
    if a.len() == 0 {
        assert(front =~= seq![one]);
        assert(none + chapter_html(one) =~= chapter_html(one));
    }
    assert(body(front) =~= before + chapter_html(one));
    if b.len() == 0 {
        assert(front + b =~= front);
        assert(before + chapter_html(one) + none =~= before + chapter_html(one));
    } else {
        assert(body(front + b) =~= before + chapter_html(one) + behind);
    }
    (before, behind)
}

/// The title and the body of a page stand in it as they are.
pub proof fn lemma_pages(
    title: Seq<char>,
    text: Seq<char>,
    items: Seq<TocEntry>,
    chapters: Seq<ChapterView>,
)
    ensures
        page(text, title) == PAGE_START@ + title + PAGE_STYLE@ + text + PAGE_END@,
        bound(items, chapters, title) == PAGE_START@ + title + PAGE_STYLE@ + (toc(items) + body(
            chapters,
        )) + PAGE_END@,
{
}

/// The page is an HTML document in UTF-8: its title stands between the tags of a title, and its
/// body between those of a body.
pub proof fn lemma_frame_of_pages()
    ensures
        "<!DOCTYPE html>\n<html>\n<head>\n<meta charset=\"utf-8\">\n<title>"@ == PAGE_START@,
        PAGE_END@ == "\n</body>\n</html>"@,
{
}

/// Every chapter stands in the page of a book.
#[verifier::rlimit(40)]
pub proof fn lemma_chapter_in_page(
    items: Seq<TocEntry>,
    chapters: Seq<ChapterView>,
    title: Seq<char>,
    c: int,
) -> (r: (Seq<char>, Seq<char>))
    requires
        0 <= c < chapters.len(),
    ensures
        ({
            let chapter = chapters[c];
            let tag = if chapter.depth <= 1 {
                seq!['h', '1']
            } else {
                seq!['h', '2']
            };
            bound(items, chapters, title) == r.0 + ("<"@ + tag + " id=\""@ + chapter.anchor
                + "\" class=\"doc-title\">"@ + chapter.title + "</"@ + tag + ">\n"@ + chapter.html)
                + r.1
        }),
{
    lemma_headings(chapters[c]);
    let (a, b) = lemma_chapter_in_body(chapters, c);
    let html = chapter_html(chapters[c]);
    lemma_regrouped(PAGE_START@ + title + PAGE_STYLE@, toc(items), a, html, b, PAGE_END@);
    (PAGE_START@ + title + PAGE_STYLE@ + toc(items) + a, b + PAGE_END@)
}

/// Of two chapters the first one stands before the second one in the page of a book.
#[verifier::rlimit(40)]
pub proof fn lemma_chapters_in_order(
    items: Seq<TocEntry>,
    chapters: Seq<ChapterView>,
    title: Seq<char>,
    c: int,
    d: int,
) -> (r: (Seq<char>, Seq<char>, Seq<char>))
    requires
        0 <= c < d < chapters.len(),
    ensures
        bound(items, chapters, title) == r.0 + chapter_html(chapters[c]) + r.1 + chapter_html(
            chapters[d],
        ) + r.2,
{
    let brk = "<div style=\"page-break-before:always\"></div>\n"@;
    let a = chapters.take(d);
    let b = chapters.skip(d);
    assert(chapters =~= a + b);
    lemma_documents_in_a_row(a, b, chapters[c]);
    let (x, y) = lemma_chapter_in_body(a, c);
    let (u, v) = lemma_chapter_in_body(b, 0);
    let one = chapter_html(chapters[c]);
    let two = chapter_html(chapters[d]);
    let start = PAGE_START@ + title + PAGE_STYLE@;
    let all = x + one + y + brk + (u + two + v);
    assert(body(chapters) == all);
    assert(start + (toc(items) + all) + PAGE_END@ =~= (start + toc(items) + x) + one + (y + brk + u)
        + two + (v + PAGE_END@));
    (start + toc(items) + x, y + brk + u, v + PAGE_END@)
}

/// Every document of which there is anything to show stands in the page of the book, with its
/// heading, its anchor, its title and its HTML.
pub proof fn lemma_book_shows_every_document(
    entries: Seq<Entry>,
    sources: Seq<SourceView>,
    title: Seq<char>,
    i: int,
    md: Seq<char>,
) -> (r: (Seq<char>, Seq<char>))
    requires
        0 <= i < entries.len(),
        entries[i] is Document,
        to_render(
            sources[document_count(entries, i) as int],
            book_places(entries, sources),
        ) == Some(md),
    ensures
        ({
            let k = document_count(entries, i);
            let tag = if entries[i]->Document_depth <= 1 {
                seq!['h', '1']
            } else {
                seq!['h', '2']
            };
            book(entries, sources, title) == r.0 + ("<"@ + tag + " id=\""@ + anchor(k)
                + "\" class=\"doc-title\">"@ + source_title(sources[k as int]) + "</"@ + tag
                + ">\n"@ + html_of(md)) + r.1
        }),
{
    let n = entries.len() as int;
    let k = document_count(entries, i);
    let map = book_places(entries, sources);
    let chapters = chapters_of(entries, sources, map, n);
    let items = contents(entries, sources, n);
    let chapter = ChapterView {
        depth: entries[i]->Document_depth,
        anchor: anchor(k),
        title: source_title(sources[k as int]),
        html: html_of(md),
    };
    lemma_documents_are_chapters(entries, sources, map, i, n);
    let c = chapters.index_of(chapter);
    assert(chapters[c] == chapter);
    lemma_chapter_in_page(items, chapters, title, c)
}

proof fn lemma_regrouped(
    start: Seq<char>,
    toc: Seq<char>,
    a: Seq<char>,
    html: Seq<char>,
    b: Seq<char>,
    end: Seq<char>,
)
    ensures
        start + (toc + (a + html + b)) + end == start + toc + a + html + (b + end),
{
    assert(start + (toc + (a + html + b)) + end =~= start + toc + a + html + (b + end));
}

/// Documents are rendered with tables, strikethrough, links and task lists, and the HTML in them is
/// let through.
pub proof fn lemma_documents_are_rendered_in_full(md: Seq<char>)
    ensures
        forall|table: bool, strikethrough: bool, autolink: bool, tasklist: bool, raw_html: bool|
            table && strikethrough && autolink && tasklist && raw_html ==> html_of(md)
                == #[trigger] rendered(md, table, strikethrough, autolink, tasklist, raw_html),
{
}

/// The documents of the first entries come first, and a document of which there is nothing to show
/// and the heading of a directory add nothing.
pub proof fn lemma_order_of_documents(
    entries: Seq<Entry>,
    sources: Seq<SourceView>,
    map: Map<Seq<char>, Seq<char>>,
    m: int,
    n: int,
)
    requires
        0 <= m <= n <= entries.len(),
    ensures
        chapters_of(entries, sources, map, m).is_prefix_of(
            chapters_of(entries, sources, map, n),
        ),
        chapters_of(entries, sources, map, n).len() <= chapters_of(entries, sources, map, m).len()
            + (n - m),
        m < n && (entries[m] is Section || to_render(
            sources[document_count(entries, m) as int],
            map,
        ) is None) ==> chapters_of(entries, sources, map, m + 1) == chapters_of(
            entries,
            sources,
            map,
            m,
        ),
    decreases n - m,
{
    if m < n {
        lemma_order_of_documents(entries, sources, map, m, n - 1);
        let a = chapters_of(entries, sources, map, m);
        let b = chapters_of(entries, sources, map, n - 1);
        let c = chapters_of(entries, sources, map, n);
        assert(b.is_prefix_of(c)) by {
            assert(b =~= c.subrange(0, b.len() as int));
        }
        assert(a =~= c.subrange(0, a.len() as int));
    } else {
        let a = chapters_of(entries, sources, map, m);
        assert(a =~= a.subrange(0, a.len() as int));
    }
}

/// Of a document that is there for navigation the introduction is shown. Of any other one its text
/// is shown with its links rewritten and without its table of contents, unless less than six tenths
/// of its bytes would be left: it is then shown as it is.
pub proof fn lemma_what_is_shown(source: SourceView, map: Map<Seq<char>, Seq<char>>)
    ensures
        is_nav(source) ==> shown(source, map) == intro(source.text),
        !is_nav(source) && encode_utf8(relinked(source, map)).len() * 100 >= encode_utf8(
            source.text,
        ).len() * 60 ==> shown(source, map) == relinked(source, map),
        !is_nav(source) && shown(source, map) != relinked(source, map) ==> shown(source, map)
            == source.text,
{
    let a = encode_utf8(relinked(source, map)).len();
    let b = encode_utf8(source.text).len();
    assert(a * 100 >= b * 60 ==> a >= b * 60 / 100);
}

/// The lines of a document are shown one by one, but for the table of contents that it ends with,
/// and their links are rewritten.
pub proof fn lemma_links_of_a_document(source: SourceView, map: Map<Seq<char>, Seq<char>>)
    requires
        forall|i: int|
            0 <= i < lines(source.text).len() ==> is_line(#[trigger] lines(source.text)[i]),
        without_toc(lines(source.text)).len() > 0 ==> without_toc(lines(source.text)).last().len()
            > 0,
    ensures
        relinked(source, map) == joined(
            rewritten_lines(without_toc(lines(source.text)), anchors_of(source.links, map)),
            '\n',
        ),
{
    let ls = lines(source.text);
    let kept = without_toc(ls);
    lemma_what_is_left_out(ls);
    assert forall|i: int| 0 <= i < kept.len() implies is_line(#[trigger] kept[i]) by {
        assert(kept[i] == ls[i]);
    }
    lemma_lines_of_joined(kept);
}

/// A document is there for navigation only where it is a readme and an index, and its title is its
/// first heading or made from the name of its file.
pub proof fn lemma_kinds_of_documents(source: SourceView, name: Seq<char>)
    ensures
        source.name is None ==> !is_nav(source),
        source.name == Some(name) ==> is_nav(source) == (is_readme(Some(name)) && is_link_index(
            source.text,
        )),
        source.name == Some(name) ==> source_title(source) == document_title(
            source.text,
            stem(name),
        ),
        source.name is None ==> source_title(source) == document_title(source.text, seq![]),
{
}

/// The page of a book is the table of contents of all its entries, and behind it all its documents.
pub proof fn lemma_page_of_a_book(
    entries: Seq<Entry>,
    sources: Seq<SourceView>,
    title: Seq<char>,
)
    ensures
        ({
            let n = entries.len() as int;
            let map = book_places(entries, sources);
            book(entries, sources, title) == PAGE_START@ + title + PAGE_STYLE@ + (toc(
                contents(entries, sources, n),
            ) + body(chapters_of(entries, sources, map, n))) + PAGE_END@
        }),
        files_of(sources).len() == sources.len(),
        forall|k: int| 0 <= k < sources.len() ==> files_of(sources)[k] == (#[trigger] sources[k]).file,
{
}

/// The book is made from all documents that were read, unless one was not: its error is told, that
/// of the first one.
pub proof fn lemma_errors_of_reading(
    good: Seq<Result<Source, String>>,
    bad: Result<Source, String>,
    rest: Seq<Result<Source, String>>,
    k: int,
)
    requires
        forall|i: int| 0 <= i < good.len() ==> (#[trigger] good[i]) is Ok,
        bad is Err,
    ensures
        first_error(good) is None,
        first_error(good + (seq![bad] + rest)) == Some(bad->Err_0@),
        read_views(good).len() == good.len(),
        0 <= k < good.len() ==> read_views(good)[k] == good[k]->Ok_0@,
    decreases good.len(),
{
    let all = good + (seq![bad] + rest);
    if good.len() == 0 {
        assert(all[0] == bad);
    } else {
        let more = good.skip(1);
        assert(good[0] is Ok);
        assert(all[0] == good[0]);
        assert forall|i: int| 0 <= i < more.len() implies (#[trigger] more[i]) is Ok by {
            assert(more[i] == good[i + 1]);
        }
        lemma_errors_of_reading(more, bad, rest, 0);
        assert(all.skip(1) =~= more + (seq![bad] + rest));
    }
}

/// The message of a document that could not be read names its path and the error.
pub proof fn lemma_messages_of_reading(path: Seq<char>, error: Seq<char>)
    ensures
        unread(path, error) == "Failed to read "@ + path + seq![':', ' '] + error,
{
    reveal_strlit(": ");
    assert(": "@ =~= seq![':', ' ']);
}

/// A document is rendered where anything but whitespace is shown of it.
pub proof fn lemma_blank_documents(source: SourceView, map: Map<Seq<char>, Seq<char>>)
    ensures
        is_blank(shown(source, map)) <==> to_render(source, map) is None,
        to_render(source, map) matches Some(md) ==> md == without_title(shown(source, map)),
{
    let s = shown(source, map);
    let (a, b) = lemma_parts_of_trimming(s);
    if is_blank(s) {
        let none = Seq::<char>::empty();
        lemma_trimming(s, none, none);
        assert(s + none + none =~= s);
    }
    if trim(s).len() == 0 {
        assert(s =~= a + b);
        assert forall|i: int| 0 <= i < s.len() implies is_space(#[trigger] s[i]) by {
            if i < a.len() {
                assert(s[i] == a[i]);
            } else {
                assert(s[i] == b[i - a.len()]);
            }
        }
    }
}

/// The first heading of the first level is taken out of a text, and all other lines are kept.
pub proof fn lemma_first_title_is_taken_out(
    text: Seq<char>,
    before: Seq<Seq<char>>,
    title: Seq<char>,
    behind: Seq<Seq<char>>,
)
    requires
        lines(text) == before + seq![title] + behind,
        is_title_line(trim(title)),
        forall|i: int| 0 <= i < before.len() ==> !is_title_line(trim(#[trigger] before[i])),
    ensures
        without_title(text) == with_line_feeds(before + behind),
{
    let ls = lines(text);
    lemma_title_place(before, title, behind);
    let at = before.len() as int;
    assert(ls.take(at) + ls.skip(at + 1) =~= before + behind);
}

proof fn lemma_title_place(before: Seq<Seq<char>>, title: Seq<char>, behind: Seq<Seq<char>>)
    requires
        is_title_line(trim(title)),
        forall|i: int| 0 <= i < before.len() ==> !is_title_line(trim(#[trigger] before[i])),
    ensures
        title_at(before + seq![title] + behind) == before.len(),
    decreases before.len(),
{
    let all = before + seq![title] + behind;
    if before.len() == 0 {
        assert(all[0] == title);
    } else {
        let rest = before.skip(1);
        assert(all[0] == before[0]);
        assert(!is_title_line(trim(before[0])));
        assert forall|i: int| 0 <= i < rest.len() implies !is_title_line(
            trim(#[trigger] rest[i]),
        ) by {
            assert(rest[i] == before[i + 1]);
        }
        lemma_title_place(rest, title, behind);
        assert(all.skip(1) =~= rest + seq![title] + behind);
    }
}

/// A text without headings of the first level is kept as it is.
pub proof fn lemma_text_without_title(text: Seq<char>)
    requires
        forall|i: int| 0 <= i < lines(text).len() ==> !is_title_line(trim(#[trigger] lines(text)[i])),
    ensures
        without_title(text) == text,
{
    lemma_no_title_place(lines(text));
}

proof fn lemma_no_title_place(ls: Seq<Seq<char>>)
    requires
        forall|i: int| 0 <= i < ls.len() ==> !is_title_line(trim(#[trigger] ls[i])),
    ensures
        title_at(ls) == ls.len(),
    decreases ls.len(),
{
    if ls.len() > 0 {
        let rest = ls.skip(1);
        assert(!is_title_line(trim(ls[0])));
        assert forall|i: int| 0 <= i < rest.len() implies !is_title_line(
            trim(#[trigger] rest[i]),
        ) by {
            assert(rest[i] == ls[i + 1]);
        }
        lemma_no_title_place(rest);
    }
}

/// Lines stand in a row, each with a line feed behind it.
pub proof fn lemma_line_feeds(a: Seq<Seq<char>>, b: Seq<Seq<char>>, line: Seq<char>)
    ensures
        with_line_feeds(seq![]) == Seq::<char>::empty(),
        with_line_feeds(seq![line]) == line.push('\n'),
        with_line_feeds(a + b) == with_line_feeds(a) + with_line_feeds(b),
    decreases b.len(),
{
    let none = Seq::<Seq<char>>::empty();
    assert(seq![line].drop_last() =~= none);
    assert(with_line_feeds(none) =~= seq![]);
    assert(with_line_feeds(seq![line]) =~= line.push('\n'));
    if b.len() == 0 {
        assert(a + b =~= a);
        assert(with_line_feeds(a) + with_line_feeds(b) =~= with_line_feeds(a));
    } else {
        lemma_line_feeds(a, b.drop_last(), line);
        assert((a + b).drop_last() =~= a + b.drop_last());
        assert(with_line_feeds(a + b) =~= with_line_feeds(a) + with_line_feeds(b));
    }
}

/// A text is repeated as often as is asked for.
pub proof fn lemma_repeating(s: Seq<char>, a: int, b: int)
    requires
        0 <= a,
        0 <= b,
    ensures
        repeated(s, 0) == Seq::<char>::empty(),
        repeated(s, 1) == s,
        repeated(s, a + b) == repeated(s, a) + repeated(s, b),
    decreases b,
{
    assert(repeated(s, 0) =~= seq![]);
    assert(repeated(s, 1) =~= repeated(s, 0) + s);
    assert(repeated(s, 0) + s =~= s);
    if b == 0 {
        assert(repeated(s, a) + repeated(s, 0) =~= repeated(s, a));
    } else {
        lemma_repeating(s, a, b - 1);
        assert(repeated(s, a + b) =~= repeated(s, a) + repeated(s, b));
    }
}

/// An entry with a place is a link to it, and an entry without one a heading. A list is opened for
/// each level that an entry lies deeper than the one before it, and one is closed, as long as any
/// is open, for each level that it lies higher.
pub proof fn lemma_entries_of_the_table(items: Seq<TocEntry>, n: int)
    requires
        0 <= n < items.len(),
    ensures
        ({
            let item = items[n];
            let text = match item.anchor {
                Some(a) => "  <li><a href=\"#"@ + a + "\">"@ + item.display + "</a></li>\n"@,
                None => "  <li class=\"toc-section\"><strong>"@ + item.display + "</strong>\n"@,
            };
            let deeper = if n == 0 {
                0
            } else {
                item.depth - items[n - 1].depth
            };
            let open = open_lists(items, n);
            &&& deeper == 0 ==> entries_html(items, n + 1) == entries_html(items, n) + text
            &&& deeper > 0 ==> entries_html(items, n + 1) == entries_html(items, n) + repeated(
                "<ul>\n"@,
                deeper,
            ) + text
            &&& deeper < 0 && -deeper <= open ==> entries_html(items, n + 1) == entries_html(
                items,
                n,
            ) + repeated("</ul></li>\n"@, -deeper) + text
            &&& deeper < 0 && 0 <= open < -deeper ==> entries_html(items, n + 1) == entries_html(
                items,
                n,
            ) + repeated("</ul></li>\n"@, open) + text
        }),
        entries_html(items, 0) == Seq::<char>::empty(),
{
    let none = Seq::<char>::empty();
    let before = entries_html(items, n);
    assert(repeated("<ul>\n"@, 0) =~= none);
    assert(repeated("</ul></li>\n"@, 0) =~= none);
    let a = repeated("<ul>\n"@, opened(items, n));
    let b = repeated("</ul></li>\n"@, closed(items, n));
    assert(before + none =~= before);
    assert(before + a + none =~= before + a);
    assert(entries_html(items, 0) =~= none);
}

/// The table of contents holds its entries in one list, and closes all lists that are open.
pub proof fn lemma_table_of_contents(items: Seq<TocEntry>)
    ensures
        toc(items)
            == "<nav class=\"toc\">\n<h1>Table of Contents</h1>\n<ul class=\"toc-root\">\n"@
            + entries_html(items, items.len() as int) + repeated(
            "</ul></li>\n"@,
            open_lists(items, items.len() as int),
        ) + "</ul>\n</nav>\n<div style=\"page-break-after:always\"></div>\n"@,
{
}

/// Every entry stands in the table of contents.
#[verifier::rlimit(40)]
pub proof fn lemma_entries_in_table(items: Seq<TocEntry>, i: int) -> (r: (Seq<char>, Seq<char>))
    requires
        0 <= i < items.len(),
    ensures
        ({
            let item = items[i];
            let text = match item.anchor {
                Some(a) => "  <li><a href=\"#"@ + a + "\">"@ + item.display + "</a></li>\n"@,
                None => "  <li class=\"toc-section\"><strong>"@ + item.display + "</strong>\n"@,
            };
            toc(items) == r.0 + text + r.1
        }),
{
    let n = items.len() as int;
    let (a, b) = lemma_entry_among_first(items, i, n);
    let text = match items[i].anchor {
        Some(a) => "  <li><a href=\"#"@ + a + "\">"@ + items[i].display + "</a></li>\n"@,
        None => "  <li class=\"toc-section\"><strong>"@ + items[i].display + "</strong>\n"@,
    };
    let head = "<nav class=\"toc\">\n<h1>Table of Contents</h1>\n<ul class=\"toc-root\">\n"@;
    let close = repeated("</ul></li>\n"@, open_lists(items, n));
    let end = "</ul>\n</nav>\n<div style=\"page-break-after:always\"></div>\n"@;
    assert(head + (a + text + b) + close + end =~= head + a + text + (b + close + end));
    (head + a, b + close + end)
}

#[verifier::rlimit(40)]
proof fn lemma_entry_among_first(items: Seq<TocEntry>, i: int, n: int) -> (r: (
    Seq<char>,
    Seq<char>,
))
    requires
        0 <= i < n <= items.len(),
    ensures
        ({
            let item = items[i];
            let text = match item.anchor {
                Some(a) => "  <li><a href=\"#"@ + a + "\">"@ + item.display + "</a></li>\n"@,
                None => "  <li class=\"toc-section\"><strong>"@ + item.display + "</strong>\n"@,
            };
            entries_html(items, n) == r.0 + text + r.1
        }),
    decreases n,
{
    let before = entries_html(items, n - 1);
    let lists = repeated("<ul>\n"@, opened(items, n - 1));
    let closed_lists = repeated("</ul></li>\n"@, closed(items, n - 1));
    let last = entry_html(items[n - 1]);
    if i == n - 1 {
        let none = Seq::<char>::empty();
        assert(before + lists + closed_lists + last + none =~= before + lists + closed_lists
            + last);
        (before + lists + closed_lists, none)
    } else {
        let (a, b) = lemma_entry_among_first(items, i, n - 1);
        let text = entry_html(items[i]);
        assert(a + text + b + lists + closed_lists + last =~= a + text + (b + lists + closed_lists
            + last));
        (a, b + lists + closed_lists + last)
    }
}

} // verus!
