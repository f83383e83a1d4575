//! The table of contents of the book: nested lists that follow the directories.
use crate::text::{push_str, to_text};
use vstd::prelude::*;

verus! {

/// An entry of the table of contents. One without a place in the book is a heading.
pub struct TocItem {
    pub depth: usize,
    pub display: String,
    pub anchor: Option<String>,
}

/// An entry of the table of contents, as texts.
pub struct TocEntry {
    pub depth: int,
    pub display: Seq<char>,
    pub anchor: Option<Seq<char>>,
}

impl View for TocItem {
    type V = TocEntry;

    open spec fn view(&self) -> TocEntry {
        TocEntry {
            depth: self.depth as int,
            display: self.display@,
            anchor: match self.anchor {
                Some(a) => Some(a@),
                None => None,
            },
        }
    }
}

/// The views of a sequence of entries.
pub open spec fn toc_views(items: Seq<TocItem>) -> Seq<TocEntry> {
    items.map_values(|i: TocItem| i@)
}

/// `s`, `n` times.
pub open spec fn repeated(s: Seq<char>, n: int) -> Seq<char>
    decreases n,
{
    if n <= 0 {
        seq![]
    } else {
        repeated(s, n - 1) + s
    }
}

/// The number of lists that are opened before the entry `n`.
pub open spec fn opened(items: Seq<TocEntry>, n: int) -> int {
    if n > 0 && items[n].depth > items[n - 1].depth {
        items[n].depth - items[n - 1].depth
    } else {
        0
    }
}

/// The number of lists that are closed before the entry `n`: as many as the entry lies higher
/// than the one before it, but no more than are open.
pub open spec fn closed(items: Seq<TocEntry>, n: int) -> int
    decreases n, 1int,
{
    if n > 0 && items[n].depth < items[n - 1].depth {
        let up = items[n - 1].depth - items[n].depth;
        if up < open_lists(items, n) {
            up
        } else {
            open_lists(items, n)
        }
    } else {
        0
    }
}

/// The number of lists inside the outermost one that are open behind the first `n` entries.
pub open spec fn open_lists(items: Seq<TocEntry>, n: int) -> int
    decreases n, 0int,
{
    if n <= 0 {
        0
    } else {
        open_lists(items, n - 1) + opened(items, n - 1) - closed(items, n - 1)
    }
}

/// The HTML of an entry.
pub open spec fn entry_html(item: TocEntry) -> Seq<char> {
    match item.anchor {
        Some(a) => "  <li><a href=\"#"@ + a + "\">"@ + item.display + "</a></li>\n"@,
        None => "  <li class=\"toc-section\"><strong>"@ + item.display + "</strong>\n"@,
    }
}

/// The HTML of the first `n` entries, with the lists that are opened and closed between them.
pub open spec fn entries_html(items: Seq<TocEntry>, n: int) -> Seq<char>
    decreases n,
{
    if n <= 0 {
        seq![]
    } else {
        entries_html(items, n - 1) + repeated("<ul>\n"@, opened(items, n - 1)) + repeated(
            "</ul></li>\n"@,
            closed(items, n - 1),
        ) + entry_html(items[n - 1])
    }
}

/// The HTML of the table of contents with the entries `items`.
pub open spec fn toc(items: Seq<TocEntry>) -> Seq<char> {
    "<nav class=\"toc\">\n<h1>Table of Contents</h1>\n<ul class=\"toc-root\">\n"@ + entries_html(
        items,
        items.len() as int,
    ) + repeated("</ul></li>\n"@, open_lists(items, items.len() as int))
        + "</ul>\n</nav>\n<div style=\"page-break-after:always\"></div>\n"@
}

fn push_repeated(out: &mut Vec<char>, s: &str, n: usize)
    ensures
        final(out)@ == old(out)@ + repeated(s@, n as int),
{
    let mut i: usize = 0;
    assert(out@ =~= old(out)@ + repeated(s@, 0));
    while i < n
        invariant
            i <= n,
            out@ == old(out)@ + repeated(s@, i as int),
        decreases n - i,
    {
        push_str(out, s);
        i += 1;
        assert(out@ =~= old(out)@ + repeated(s@, i as int));
    }
}

/// No more lists are open than the last entry lies deep.
pub proof fn lemma_open_lists_bound(items: Seq<TocEntry>, n: int)
    requires
        0 <= n <= items.len(),
        forall|i: int| 0 <= i < items.len() ==> (#[trigger] items[i]).depth >= 0,
    ensures
        0 <= open_lists(items, n),
        n > 0 ==> open_lists(items, n) <= items[n - 1].depth,
        0 <= opened(items, n),
        0 <= closed(items, n) <= open_lists(items, n),
    decreases n,
{
    if n > 0 {
        lemma_open_lists_bound(items, n - 1);
        assert(items[n - 1].depth >= 0);
    }
}

fn push_entry(out: &mut Vec<char>, item: &TocItem)
    ensures
        final(out)@ == old(out)@ + entry_html(item@),
{
    match &item.anchor {
        Some(anchor) => {
            push_str(out, "  <li><a href=\"#");
            push_str(out, anchor.as_str());
            push_str(out, "\">");
            push_str(out, item.display.as_str());
            push_str(out, "</a></li>\n");
        },
        None => {
            push_str(out, "  <li class=\"toc-section\"><strong>");
            push_str(out, item.display.as_str());
            push_str(out, "</strong>\n");
        },
    }
    assert(out@ =~= old(out)@ + entry_html(item@));
}

/// The HTML of the table of contents with the entries `items`.
pub fn toc_html(items: &Vec<TocItem>) -> (out: String)
    ensures
        out@ == toc(toc_views(items@)),
{
    let ghost all = toc_views(items@);
    let mut text: Vec<char> = Vec::new();
    push_str(
        &mut text,
        "<nav class=\"toc\">\n<h1>Table of Contents</h1>\n<ul class=\"toc-root\">\n",
    );
    let ghost head = text@;
    let mut open: usize = 0;
    let mut i: usize = 0;
    assert(text@ =~= head + entries_html(all, 0));
    while i < items.len()
        invariant
            i <= items.len(),
            all == toc_views(items@),
            open == open_lists(all, i as int),
            i > 0 ==> open <= items@[i - 1].depth,
            text@ == head + entries_html(all, i as int),
        decreases items.len() - i,
    {
        let ghost before = text@;
        proof {
            lemma_open_lists_bound(all, i as int);
            assert(all[i as int] == items@[i as int]@);
            if i > 0 {
                assert(all[i - 1] == items@[i - 1]@);
            }
        }
        let depth = items[i].depth;
        if i > 0 {
            let last = items[i - 1].depth;
            if depth > last {
                push_repeated(&mut text, "<ul>\n", depth - last);
                open = open + (depth - last);
            } else if depth < last {
                let up = last - depth;
                let close = if up < open {
                    up
                } else {
                    open
                };
                push_repeated(&mut text, "</ul></li>\n", close);
                open = open - close;
            }
        }
        assert(text@ =~= before + repeated("<ul>\n"@, opened(all, i as int)) + repeated(
            "</ul></li>\n"@,
            closed(all, i as int),
        ));
        push_entry(&mut text, &items[i]);
        i += 1;
        assert(text@ =~= head + entries_html(all, i as int));
    }
    push_repeated(&mut text, "</ul></li>\n", open);
    push_str(&mut text, "</ul>\n</nav>\n<div style=\"page-break-after:always\"></div>\n");
    assert(text@ =~= toc(all));
    to_text(text.as_slice())
}

/// The number of lists that are opened before the first `n` entries.
pub open spec fn all_opened(items: Seq<TocEntry>, n: int) -> int
    decreases n,
{
    if n <= 0 {
        0
    } else {
        all_opened(items, n - 1) + opened(items, n - 1)
    }
}

/// The number of lists that are closed before the first `n` entries.
pub open spec fn all_closed(items: Seq<TocEntry>, n: int) -> int
    decreases n,
{
    if n <= 0 {
        0
    } else {
        all_closed(items, n - 1) + closed(items, n - 1)
    }
}

/// Every list that is opened is closed: those that are not closed between the entries are the
/// ones that are closed at the end.
pub proof fn lemma_lists_are_closed(items: Seq<TocEntry>, n: int)
    ensures
        all_opened(items, n) == all_closed(items, n) + open_lists(items, n),
    decreases n,
{
    if n > 0 {
        lemma_lists_are_closed(items, n - 1);
    }
}

/// The least depth of the first `n` entries.
pub open spec fn least_depth(items: Seq<TocEntry>, n: int) -> int
    decreases n,
{
    if n <= 1 {
        items[0].depth
    } else {
        let front = least_depth(items, n - 1);
        if items[n - 1].depth < front {
            items[n - 1].depth
        } else {
            front
        }
    }
}

/// Lists are nested as entries are: an entry stands in as many lists inside the outermost one as
/// it lies deeper than the highest entry so far.
pub proof fn lemma_lists_follow_depth(items: Seq<TocEntry>, n: int)
    requires
        0 < n <= items.len(),
    ensures
        open_lists(items, n) == items[n - 1].depth - least_depth(items, n),
        least_depth(items, n) <= items[n - 1].depth,
    decreases n,
{
    reveal_with_fuel(open_lists, 2);
    reveal_with_fuel(closed, 2);
    if n > 1 {
        lemma_lists_follow_depth(items, n - 1);
    }
}

} // verus!
