//! Which texts are indexes, what their introductions are, and which tables of contents are left
//! out.
use crate::lines::lines;
use crate::text::{
    ascii_lowered, find_pair, is_part_of, is_space, lemma_find_pair, lemma_trim_is_part, trim,
};
use crate::text_laws::{is_blank, lemma_lower_case, lemma_trimming};
use crate::titles::is_title_line;
use crate::toc::{
    before_links, begins_link_item, begins_links, content_count, heading_text, intro,
    is_link_entry, is_link_index, is_readme, is_toc, is_toc_entry, is_toc_heading, is_toc_line,
    link_count, with_line_feeds, without_bold_end, without_bold_start, without_hashes,
    without_titles, without_toc,
};
use vstd::prelude::*;

verus! {

/// A list item that is a link to a markdown file is an entry, whatever its text and its path are.
pub proof fn lemma_links_to_documents_are_entries(mark: char, text: Seq<char>, path: Seq<char>)
    requires
        mark == '-' || mark == '*',
    ensures
        ({
            let entry = seq![mark, ' ', '['] + text + seq![']', '('] + path + seq![
                '.',
                'm',
                'd',
                ')',
            ];
            is_link_entry(entry) && is_toc_entry(entry) && begins_links(entry)
        }),
{
    reveal_strlit("- [");
    reveal_strlit("* [");
    reveal_strlit(".md)");
    let t = seq![mark, ' ', '['] + text + seq![']', '('] + path + seq!['.', 'm', 'd', ')'];
    let n = t.len() as int;
    assert(t.subrange(0, 3) =~= seq![mark, ' ', '[']);
    assert("- ["@ =~= seq!['-', ' ', '['] && "* ["@ =~= seq!['*', ' ', '[']);
    assert(begins_link_item(t));
    assert(t.subrange(n - 4, n) =~= ".md)"@);
    assert(is_part_of(".md)"@, t)) by {
        assert(t.subrange(n - 4, n - 4 + ".md)"@.len()) =~= ".md)"@);
    }
    lemma_find_pair(t, 0, ']', '(');
    let k = 3 + text.len() as int;
    assert(t[k] == ']' && t[k + 1] == '(');
}

/// The links of an index begin with a list item or a heading of the second level that begins with a
/// bracket, wherever in it the target ends that is a markdown file.
pub proof fn lemma_where_links_begin(x: Seq<char>, y: Seq<char>)
    ensures
        begins_links(seq!['-', ' ', '['] + x + seq!['.', 'm', 'd', ')'] + y),
        begins_links(seq!['*', ' ', '['] + x + seq!['.', 'm', 'd', ')'] + y),
        begins_links(seq!['#', '#', ' ', '['] + x + seq!['.', 'm', 'd', ')'] + y),
{
    reveal_strlit("- [");
    reveal_strlit("* [");
    reveal_strlit("## [");
    reveal_strlit(".md)");
    let end = seq!['.', 'm', 'd', ')'];
    let a = seq!['-', ' ', '['] + x + end + y;
    let b = seq!['*', ' ', '['] + x + end + y;
    let c = seq!['#', '#', ' ', '['] + x + end + y;
    let n = x.len() as int;
    assert(".md)"@ =~= end);
    assert(a.subrange(0, 3) =~= "- ["@ && b.subrange(0, 3) =~= "* ["@ && c.subrange(0, 4)
        =~= "## ["@);
    assert(a.subrange(3 + n, 3 + n + ".md)"@.len()) =~= ".md)"@);
    assert(b.subrange(3 + n, 3 + n + ".md)"@.len()) =~= ".md)"@);
    assert(c.subrange(4 + n, 4 + n + ".md)"@.len()) =~= ".md)"@);
}

/// A list item with a link to a markdown file in it is an entry of a table of contents, whatever
/// follows the link.
pub proof fn lemma_entries_of_tables(
    mark: char,
    text: Seq<char>,
    path: Seq<char>,
    tail: Seq<char>,
)
    requires
        mark == '-' || mark == '*',
    ensures
        is_toc_entry(
            seq![mark, ' ', '['] + text + seq![']', '('] + path + seq!['.', 'm', 'd', ')'] + tail,
        ),
{
    reveal_strlit("- [");
    reveal_strlit("* [");
    reveal_strlit(".md)");
    let t = seq![mark, ' ', '['] + text + seq![']', '('] + path + seq!['.', 'm', 'd', ')'] + tail;
    let n = t.len() - tail.len();
    let k = 3 + text.len() as int;
    assert(t.subrange(0, 3) =~= seq![mark, ' ', '[']);
    assert("- ["@ =~= seq!['-', ' ', '['] && "* ["@ =~= seq!['*', ' ', '[']);
    assert(t.subrange(n - 4, n - 4 + ".md)"@.len()) =~= ".md)"@);
    lemma_find_pair(t, 0, ']', '(');
    assert(t[k] == ']' && t[k + 1] == '(');
}

/// An entry begins a list item with a bracket, opens a target and closes one that is a markdown
/// file.
pub proof fn lemma_entries_are_links(t: Seq<char>)
    ensures
        is_link_entry(t) || is_toc_entry(t) ==> {
            &&& t.len() >= 3
            &&& t[0] == '-' || t[0] == '*'
            &&& t[1] == ' '
            &&& t[2] == '['
            &&& exists|k: int| 0 <= k && k + 1 < t.len() && t[k] == ']' && #[trigger] t[k + 1] == '('
        },
        is_link_entry(t) ==> {
            let n = t.len() as int;
            n >= 4 && t[n - 4] == '.' && t[n - 3] == 'm' && t[n - 2] == 'd' && t[n - 1] == ')'
        },
        is_toc_entry(t) || begins_links(t) ==> exists|k: int|
            0 <= k && k + 4 <= t.len() && #[trigger] t.subrange(k, k + 4) == seq![
                '.',
                'm',
                'd',
                ')',
            ],
        begins_links(t) ==> t[0] == '-' && t[1] == ' ' && t[2] == '[' || t[0] == '*' && t[1] == ' '
            && t[2] == '[' || t[0] == '#' && t[1] == '#' && t[2] == ' ' && t[3] == '[',
{
    reveal_strlit("- [");
    reveal_strlit("* [");
    reveal_strlit("## [");
    reveal_strlit(".md)");
    assert(".md)"@ =~= seq!['.', 'm', 'd', ')']);
    lemma_find_pair(t, 0, ']', '(');
    if begins_link_item(t) {
        let s = t.subrange(0, 3);
        assert(s[0] == t[0] && s[1] == t[1] && s[2] == t[2]);
    }
    if "## ["@.is_prefix_of(t) {
        let s = t.subrange(0, 4);
        assert(s[0] == t[0] && s[1] == t[1] && s[2] == t[2] && s[3] == t[3]);
    }
    if is_link_entry(t) {
        let n = t.len() as int;
        let s = t.subrange(n - 4, n);
        assert(s[0] == t[n - 4] && s[1] == t[n - 3] && s[2] == t[n - 2] && s[3] == t[n - 1]);
    }
    if is_link_entry(t) || is_toc_entry(t) {
        let k = find_pair(t, 0, ']', '(')->0;
        assert(t[k + 1] == '(');
    }
    if is_toc_entry(t) || begins_links(t) {
        let k = choose|k: int|
            0 <= k && k + ".md)"@.len() <= t.len() && ".md)"@ == #[trigger] t.subrange(
                k,
                k + ".md)"@.len(),
            );
        assert(t.subrange(k, k + 4) == seq!['.', 'm', 'd', ')']);
    }
}

/// A line with text counts unless it is a heading or a rule, and an entry counts as a link.
pub proof fn lemma_counting(a: Seq<Seq<char>>, b: Seq<Seq<char>>, line: Seq<char>)
    ensures
        content_count(a + b) == content_count(a) + content_count(b),
        link_count(a + b) == link_count(a) + link_count(b),
        content_count(seq![line]) == if trim(line).len() > 0 && trim(line)[0] != '#' && trim(line)
            != seq!['-', '-', '-'] {
            1nat
        } else {
            0nat
        },
        link_count(seq![line]) == if is_link_entry(trim(line)) {
            1nat
        } else {
            0nat
        },
    decreases b.len(),
{
    reveal_strlit("---");
    assert("---"@ =~= seq!['-', '-', '-']);
    let none = Seq::<Seq<char>>::empty();
    assert(seq![line].drop_last() =~= none);
    assert(content_count(none) == 0 && link_count(none) == 0);
    lemma_entries_are_links(trim(line));
    if is_link_entry(trim(line)) {
        assert(trim(line) != seq!['-', '-', '-']) by {
            assert(trim(line)[1] == ' ');
            assert(seq!['-', '-', '-'][1] == '-');
        }
    }
    if b.len() == 0 {
        assert(a + b =~= a);
    } else {
        lemma_counting(a, b.drop_last(), line);
        assert((a + b).drop_last() =~= a + b.drop_last());
    }
}

/// An index has at least three lines that count, and at least seven in ten of them are links.
pub proof fn lemma_indexes(content: Seq<char>, links: int, others: int)
    requires
        link_count(lines(content)) == links,
        content_count(lines(content)) == links + others,
    ensures
        links + others < 3 ==> !is_link_index(content),
        links + others >= 3 && 3 * links >= 7 * others ==> is_link_index(content),
        3 * links < 7 * others ==> !is_link_index(content),
{
}

/// A readme is called so, in whatever case.
pub proof fn lemma_readmes(name: Seq<char>)
    ensures
        !is_readme(None),
        is_readme(Some(name)) <==> ascii_lowered(name) == seq![
            'r', 'e', 'a', 'd', 'm', 'e', '.', 'm', 'd',
        ],
{
    reveal_strlit("readme.md");
    assert("readme.md"@ =~= seq!['r', 'e', 'a', 'd', 'm', 'e', '.', 'm', 'd']);
}

/// The introduction of an index is what stands behind the titles that it begins with and before the
/// first line with which its links begin.
pub proof fn lemma_introductions(
    content: Seq<char>,
    titles: Seq<Seq<char>>,
    text: Seq<Seq<char>>,
    links: Seq<Seq<char>>,
)
    requires
        lines(content) == titles + (text + links),
        forall|i: int| 0 <= i < titles.len() ==> is_title_line(trim(#[trigger] titles[i])),
        text.len() + links.len() > 0 ==> !is_title_line(trim((text + links)[0])),
        forall|i: int| 0 <= i < text.len() ==> !begins_links(trim(#[trigger] text[i])),
        links.len() > 0 ==> begins_links(trim(links[0])),
    ensures
        intro(content) == trim(with_line_feeds(text)),
{
    lemma_titles_go(titles, text + links);
    lemma_links_end(text, links);
}

proof fn lemma_titles_go(titles: Seq<Seq<char>>, rest: Seq<Seq<char>>)
    requires
        forall|i: int| 0 <= i < titles.len() ==> is_title_line(trim(#[trigger] titles[i])),
        rest.len() > 0 ==> !is_title_line(trim(rest[0])),
    ensures
        without_titles(titles + rest) == rest,
    decreases titles.len(),
{
    if titles.len() == 0 {
        assert(titles + rest =~= rest);
    } else {
        let more = titles.skip(1);
        assert((titles + rest)[0] == titles[0]);
        assert(is_title_line(trim(titles[0])));
        assert((titles + rest).skip(1) =~= more + rest);
        assert forall|i: int| 0 <= i < more.len() implies is_title_line(trim(#[trigger] more[i])) by {
            assert(more[i] == titles[i + 1]);
        }
        lemma_titles_go(more, rest);
    }
}

proof fn lemma_links_end(text: Seq<Seq<char>>, links: Seq<Seq<char>>)
    requires
        forall|i: int| 0 <= i < text.len() ==> !begins_links(trim(#[trigger] text[i])),
        links.len() > 0 ==> begins_links(trim(links[0])),
    ensures
        before_links(text + links) == text,
    decreases text.len(),
{
    if text.len() == 0 {
        assert(text + links =~= links);
        assert(before_links(text + links) =~= text);
    } else {
        let more = text.skip(1);
        assert((text + links)[0] == text[0]);
        assert(!begins_links(trim(text[0])));
        assert((text + links).skip(1) =~= more + links);
        assert forall|i: int| 0 <= i < more.len() implies !begins_links(trim(#[trigger] more[i])) by {
            assert(more[i] == text[i + 1]);
        }
        lemma_links_end(more, links);
        assert(seq![text[0]] + more =~= text);
    }
}

/// A heading of the first level begins with a single `#` and a space.
pub proof fn lemma_titles(t: Seq<char>)
    ensures
        is_title_line(seq!['#', ' '] + t),
        is_title_line(t) ==> t.len() >= 2 && t[0] == '#' && t[1] == ' ',
{
}

proof fn lemma_hashes_go(h: Seq<char>, s: Seq<char>)
    requires
        forall|i: int| 0 <= i < h.len() ==> #[trigger] h[i] == '#',
        s.len() > 0 ==> s[0] != '#',
    ensures
        without_hashes(h + s) == s,
    decreases h.len(),
{
    if h.len() == 0 {
        assert(h + s =~= s);
    } else {
        let rest = h.skip(1);
        assert(h[0] == '#');
        assert((h + s).skip(1) =~= rest + s);
        assert forall|i: int| 0 <= i < rest.len() implies #[trigger] rest[i] == '#' by {
            assert(rest[i] == h[i + 1]);
        }
        lemma_hashes_go(rest, s);
    }
}

/// The heading of a table of contents is a heading of any level with one of two texts, in any case,
/// plain or bold.
#[verifier::rlimit(40)]
pub proof fn lemma_headings_of_tables(hashes: Seq<char>, space: Seq<char>, label: Seq<char>)
    requires
        hashes.len() > 0,
        forall|i: int| 0 <= i < hashes.len() ==> #[trigger] hashes[i] == '#',
        is_blank(space),
        ascii_lowered(label) == "table of contents"@ || ascii_lowered(label) == "in this part:"@,
    ensures
        is_toc_heading(hashes + space + label),
        is_toc_heading(hashes + space + (seq!['*', '*'] + label + seq!['*', '*'])),
{
    reveal_strlit("table of contents");
    reveal_strlit("in this part:");
    let none = Seq::<char>::empty();
    let low = ascii_lowered(label);
    let n = label.len() as int;
    assert(low.len() == label.len());
    assert(n == 17 || n == 13);
    lemma_lower_case(label, 0);
    lemma_lower_case(label, n - 1);
    assert(low[0] == 't' || low[0] == 'i');
    assert(low[n - 1] == 's' || low[n - 1] == ':');
    let a = label[0];
    let z = label[n - 1];
    assert(a != '#' && a != '*' && !is_space(a));
    assert(z != '#' && z != '*' && !is_space(z));
    let plain = hashes + space + label;
    let x = space + label;
    assert(plain =~= hashes + x);
    assert(x[0] != '#') by {
        if space.len() > 0 {
            assert(is_space(space[0]));
        }
    }
    lemma_hashes_go(hashes, x);
    lemma_trimming(space, label, none);
    assert(space + label + none =~= x);
    lemma_trimming(none, label, none);
    assert(none + label + none =~= label);
    assert(without_bold_start(label) == label);
    assert(without_bold_end(label) == label);
    assert(plain[0] == hashes[0]);
    assert(heading_text(plain) == label);
    let stars = seq!['*', '*'];
    let strong = stars + label + stars;
    let bold = hashes + space + strong;
    let y = space + strong;
    assert(bold =~= hashes + y);
    assert(strong[0] == '*' && strong.last() == '*');
    assert(y[0] != '#') by {
        if space.len() > 0 {
            assert(is_space(space[0]));
        }
    }
    lemma_hashes_go(hashes, y);
    lemma_trimming(space, strong, none);
    assert(space + strong + none =~= y);
    let open = label + stars;
    assert(strong.skip(2) =~= open);
    assert(open[0] == a);
    assert(strong[1] == '*');
    assert(without_bold_start(open) == open);
    assert(without_bold_start(strong) == open);
    assert(open.take(open.len() - 2) =~= label);
    assert(open[open.len() - 1] == '*' && open[open.len() - 2] == '*');
    assert(without_bold_end(open) == label);
    assert(bold[0] == hashes[0]);
    assert(heading_text(bold) == label);
}

/// Whether `part` is what stands in `whole` from one place to another.
pub open spec fn stands_in(part: Seq<char>, whole: Seq<char>) -> bool {
    exists|i: int, j: int| 0 <= i <= j <= whole.len() && part == #[trigger] whole.subrange(i, j)
}

proof fn lemma_stands_in(a: Seq<char>, b: Seq<char>, c: Seq<char>)
    requires
        stands_in(a, b),
        stands_in(b, c),
    ensures
        stands_in(a, c),
{
    let (i, j) = choose|i: int, j: int| 0 <= i <= j <= b.len() && a == #[trigger] b.subrange(i, j);
    let (k, l) = choose|k: int, l: int| 0 <= k <= l <= c.len() && b == #[trigger] c.subrange(k, l);
    assert(a =~= c.subrange(k + i, k + j));
}

proof fn lemma_marks_are_left_out(s: Seq<char>)
    ensures
        stands_in(without_hashes(s), s),
        stands_in(without_bold_start(s), s),
        stands_in(without_bold_end(s), s),
    decreases s.len(),
{
    let n = s.len() as int;
    assert(s =~= s.subrange(0, n));
    if s.len() > 0 {
        lemma_marks_are_left_out(s.skip(1));
        assert(s.skip(1) =~= s.subrange(1, n));
        lemma_stands_in(without_hashes(s.skip(1)), s.skip(1), s);
    }
    if s.len() >= 2 {
        lemma_marks_are_left_out(s.skip(2));
        lemma_marks_are_left_out(s.take(n - 2));
        assert(s.skip(2) =~= s.subrange(2, n));
        assert(s.take(n - 2) =~= s.subrange(0, n - 2));
        lemma_stands_in(without_bold_start(s.skip(2)), s.skip(2), s);
        lemma_stands_in(without_bold_end(s.take(n - 2)), s.take(n - 2), s);
    }
}

/// Nothing else is such a heading: it begins with `#`, and one of the two texts stands in it.
pub proof fn lemma_only_two_headings(t: Seq<char>)
    requires
        is_toc_heading(t),
    ensures
        t[0] == '#',
        exists|label: Seq<char>| #[trigger]
            stands_in(label, t) && (ascii_lowered(label) == "table of contents"@ || ascii_lowered(
                label,
            ) == "in this part:"@),
{
    let a = without_hashes(t);
    let b = trim(a);
    let c = without_bold_start(b);
    let d = without_bold_end(c);
    let e = trim(d);
    lemma_marks_are_left_out(t);
    lemma_trim_is_part(a);
    assert(stands_in(b, a));
    lemma_marks_are_left_out(b);
    lemma_marks_are_left_out(c);
    lemma_trim_is_part(d);
    assert(stands_in(e, d));
    lemma_stands_in(b, a, t);
    lemma_stands_in(c, b, t);
    lemma_stands_in(d, c, t);
    lemma_stands_in(e, d, t);
    assert(e == heading_text(t));
}

/// A heading of a table of contents and the entries behind it are left out, and all before it is
/// kept.
pub proof fn lemma_tables_are_left_out(
    before: Seq<Seq<char>>,
    heading: Seq<char>,
    entries: Seq<Seq<char>>,
    k: int,
)
    requires
        forall|i: int| 0 <= i < before.len() ==> !is_toc_heading(trim(#[trigger] before[i])),
        is_toc_heading(trim(heading)),
        forall|i: int|
            0 <= i < entries.len() ==> trim(#[trigger] entries[i]).len() == 0 || is_toc_entry(
                trim(entries[i]),
            ),
        0 <= k < entries.len(),
        is_toc_entry(trim(entries[k])),
    ensures
        without_toc(before + (seq![heading] + entries)) == before,
    decreases before.len(),
{
    let table = seq![heading] + entries;
    let all = before + table;
    if before.len() == 0 {
        assert(all =~= table);
        assert(table[0] == heading);
        assert forall|i: int| 0 < i < table.len() implies is_toc_line(#[trigger] table[i]) by {
            assert(table[i] == entries[i - 1]);
        }
        assert(table[k + 1] == entries[k]);
        assert(is_toc(all));
        assert(without_toc(all) =~= before);
    } else {
        let rest = before.skip(1);
        assert(all[0] == before[0]);
        assert(!is_toc_heading(trim(before[0])));
        assert forall|i: int| 0 <= i < rest.len() implies !is_toc_heading(
            trim(#[trigger] rest[i]),
        ) by {
            assert(rest[i] == before[i + 1]);
        }
        lemma_tables_are_left_out(rest, heading, entries, k);
        assert(all.skip(1) =~= rest + table);
        assert(seq![before[0]] + rest =~= before);
    }
}

/// Lines are only ever left out from a heading of a table of contents on, and only where an entry
/// and nothing but entries follow it.
pub proof fn lemma_what_is_left_out(ls: Seq<Seq<char>>)
    ensures
        ({
            let n = without_toc(ls).len() as int;
            &&& n <= ls.len()
            &&& without_toc(ls) == ls.take(n)
            &&& n < ls.len() ==> is_toc_heading(trim(ls[n])) && n + 1 < ls.len()
            &&& forall|i: int|
                n < i < ls.len() ==> trim(#[trigger] ls[i]).len() == 0 || is_toc_entry(trim(ls[i]))
        }),
    decreases ls.len(),
{
    let n = without_toc(ls).len() as int;
    if ls.len() == 0 || is_toc(ls) {
        assert(without_toc(ls) =~= ls.take(0));
        if ls.len() > 0 {
            assert forall|i: int| n < i < ls.len() implies trim(#[trigger] ls[i]).len() == 0
                || is_toc_entry(trim(ls[i])) by {
                assert(is_toc_line(ls[i]));
            }
        }
    } else {
        let rest = ls.skip(1);
        lemma_what_is_left_out(rest);
        let m = without_toc(rest).len() as int;
        assert(n == m + 1);
        assert(without_toc(ls) =~= ls.take(n));
        assert(m < rest.len() ==> rest[m] == ls[n]);
        assert forall|i: int| n < i < ls.len() implies trim(#[trigger] ls[i]).len() == 0
            || is_toc_entry(trim(ls[i])) by {
            assert(rest[i - 1] == ls[i]);
        }
    }
}

} // verus!
