//! Navigation in documents: index pages, their introductions and inline tables of contents.
use crate::lines::{joined, lines, lines_of, push_joined};
use crate::paths::{file_name, is_file_name_of, text_of};
use crate::text::{
    ascii_lowered, contains_word, ends_with, find_pair, is_part_of, is_word, position_of_pair,
    push_chars, starts_with, to_ascii_lower, to_chars, to_text, trim, trim_chars,
};
use crate::titles::{is_title_line, line_is_title};
use vstd::prelude::*;
use vstd::slice::slice_subrange;

verus! {

/// A trimmed line that begins a list item with a link.
pub open spec fn begins_link_item(t: Seq<char>) -> bool {
    "- ["@.is_prefix_of(t) || "* ["@.is_prefix_of(t)
}

/// A trimmed line that is nothing but a list item with a link to a markdown file.
pub open spec fn is_link_entry(t: Seq<char>) -> bool {
    begins_link_item(t) && find_pair(t, 0, ']', '(') is Some && ".md)"@.is_suffix_of(t)
}

/// A trimmed line that holds content: neither blank, nor a rule, nor a heading.
pub open spec fn is_content(t: Seq<char>) -> bool {
    t.len() > 0 && t != "---"@ && t[0] != '#'
}

/// The number of lines among `ls` that hold content.
pub open spec fn content_count(ls: Seq<Seq<char>>) -> nat
    decreases ls.len(),
{
    if ls.len() == 0 {
        0
    } else {
        content_count(ls.drop_last()) + if is_content(trim(ls.last())) {
            1nat
        } else {
            0nat
        }
    }
}

/// The number of content lines among `ls` that are link entries.
pub open spec fn link_count(ls: Seq<Seq<char>>) -> nat
    decreases ls.len(),
{
    if ls.len() == 0 {
        0
    } else {
        link_count(ls.drop_last()) + if is_content(trim(ls.last())) && is_link_entry(
            trim(ls.last()),
        ) {
            1nat
        } else {
            0nat
        }
    }
}

/// A text that is an index of links: at least three lines of content, of which at least seven in
/// ten are link entries.
pub open spec fn is_link_index(content: Seq<char>) -> bool {
    let ls = lines(content);
    content_count(ls) >= 3 && link_count(ls) * 10 >= content_count(ls) * 7
}

/// The file name of a readme.
pub open spec fn is_readme(name: Option<Seq<char>>) -> bool {
    match name {
        Some(n) => ascii_lowered(n) == "readme.md"@,
        None => false,
    }
}

/// Whether a text is an index of links.
pub fn text_is_link_index(content: &str) -> (b: bool)
    ensures
        b == is_link_index(content@),
{
    let chars = to_chars(content);
    let ls = lines_of(chars.as_slice());
    let ghost all = lines(content@);
    let mut links: usize = 0;
    let mut contents: usize = 0;
    let mut i: usize = 0;
    while i < ls.len()
        invariant
            i <= ls.len(),
            ls@.len() == all.len(),
            forall|j: int| 0 <= j < ls@.len() ==> (#[trigger] ls@[j])@ == all[j],
            links <= contents <= i,
            contents == content_count(all.take(i as int)),
            links == link_count(all.take(i as int)),
        decreases ls.len() - i,
    {
        let t = trim_chars(ls[i]);
        proof {
            assert(all.take(i + 1).drop_last() =~= all.take(i as int));
        }
        if t.len() > 0 && !is_word(t, "---") && t[0] != '#' {
            contents += 1;
            if (starts_with(t, "- [") || starts_with(t, "* ["))
                && position_of_pair(t, 0, ']', '(').is_some() && ends_with(t, ".md)") {
                links += 1;
            }
        }
        i += 1;
    }
    assert(all.take(all.len() as int) =~= all);
    let tenths = links as u128 * 10;
    let least = contents as u128 * 7;
    contents >= 3 && tenths >= least
}

/// Whether `name` is the file name of a readme.
pub fn name_is_readme(name: &Option<String>) -> (b: bool)
    ensures
        b == is_readme(text_of(*name)),
{
    match name {
        Some(n) => {
            let chars = to_chars(n.as_str());
            let lower = to_ascii_lower(chars.as_slice());
            is_word(lower.as_slice(), "readme.md")
        },
        None => false,
    }
}

/// Whether the document at `path` with the text `content` is there for navigation only: a readme
/// that is an index of links.
pub fn is_nav_only(content: &str, path: &str) -> (b: bool)
    ensures
        exists|name: Option<Seq<char>>|
            is_file_name_of(path@, name) && b == (#[trigger] is_readme(name) && is_link_index(
                content@,
            )),
{
    let name = file_name(path);
    let ghost view = text_of(name);
    let b = name_is_readme(&name) && text_is_link_index(content);
    assert(b == (is_readme(view) && is_link_index(content@)));
    b
}

/// Only a text with content can be an index, and at least seven in ten of its content lines are
/// link entries then.
pub proof fn lemma_link_index_is_mostly_links(content: Seq<char>)
    requires
        is_link_index(content),
    ensures
        content_count(lines(content)) >= 3,
        10 * link_count(lines(content)) >= 7 * content_count(lines(content)),
        link_count(lines(content)) <= content_count(lines(content)),
{
    lemma_links_are_content(lines(content));
}

proof fn lemma_links_are_content(ls: Seq<Seq<char>>)
    ensures
        link_count(ls) <= content_count(ls),
    decreases ls.len(),
{
    if ls.len() > 0 {
        lemma_links_are_content(ls.drop_last());
    }
}

/// A trimmed line with which the links of an index begin.
pub open spec fn begins_links(t: Seq<char>) -> bool {
    (begins_link_item(t) || "## ["@.is_prefix_of(t)) && is_part_of(".md)"@, t)
}

/// `ls` without the title lines that it begins with.
pub open spec fn without_titles(ls: Seq<Seq<char>>) -> Seq<Seq<char>>
    decreases ls.len(),
{
    if ls.len() > 0 && is_title_line(trim(ls[0])) {
        without_titles(ls.skip(1))
    } else {
        ls
    }
}

/// The lines among `ls` before the first one with which links begin.
pub open spec fn before_links(ls: Seq<Seq<char>>) -> Seq<Seq<char>>
    decreases ls.len(),
{
    if ls.len() == 0 || begins_links(trim(ls[0])) {
        seq![]
    } else {
        seq![ls[0]] + before_links(ls.skip(1))
    }
}

/// Each of the lines `ls` with a line feed behind it.
pub open spec fn with_line_feeds(ls: Seq<Seq<char>>) -> Seq<char>
    decreases ls.len(),
{
    if ls.len() == 0 {
        seq![]
    } else {
        with_line_feeds(ls.drop_last()) + ls.last().push('\n')
    }
}

/// The introduction of an index: what stands between its title and its links.
pub open spec fn intro(content: Seq<char>) -> Seq<char> {
    trim(with_line_feeds(before_links(without_titles(lines(content)))))
}

fn line_begins_links(t: &[char]) -> (b: bool)
    ensures
        b == begins_links(t@),
{
    (starts_with(t, "- [") || starts_with(t, "* [") || starts_with(t, "## [")) && contains_word(
        t,
        ".md)",
    )
}

/// Appends a line and a line feed to `out`.
pub(crate) fn push_line_feed(out: &mut Vec<char>, line: &[char], Ghost(ls): Ghost<Seq<Seq<char>>>)
    requires
        old(out)@ == with_line_feeds(ls),
    ensures
        final(out)@ == with_line_feeds(ls.push(line@)),
{
    push_chars(out, line);
    out.push('\n');
    proof {
        assert(ls.push(line@).drop_last() =~= ls);
        assert(out@ =~= with_line_feeds(ls) + line@.push('\n'));
    }
}

/// The introduction of an index: what stands between its title and its links.
pub fn extract_intro(content: &str) -> (out: String)
    ensures
        out@ == intro(content@),
{
    let chars = to_chars(content);
    let ls = lines_of(chars.as_slice());
    let ghost all = lines(content@);
    let mut i: usize = 0;
    assert(all.skip(0) =~= all);
    while i < ls.len() && line_is_title(trim_chars(ls[i]))
        invariant
            i <= ls.len(),
            ls@.len() == all.len(),
            forall|j: int| 0 <= j < ls@.len() ==> (#[trigger] ls@[j])@ == all[j],
            without_titles(all) == without_titles(all.skip(i as int)),
        decreases ls.len() - i,
    {
        assert(all.skip(i as int).skip(1) =~= all.skip(i + 1));
        i += 1;
    }
    let ghost rest = all.skip(i as int);
    let ghost mut done: Seq<Seq<char>> = seq![];
    let mut out: Vec<char> = Vec::new();
    assert(done + before_links(rest) =~= before_links(rest));
    while i < ls.len() && !line_begins_links(trim_chars(ls[i]))
        invariant
            i <= ls.len(),
            ls@.len() == all.len(),
            forall|j: int| 0 <= j < ls@.len() ==> (#[trigger] ls@[j])@ == all[j],
            done + before_links(all.skip(i as int)) == before_links(rest),
            out@ == with_line_feeds(done),
        decreases ls.len() - i,
    {
        push_line_feed(&mut out, ls[i], Ghost(done));
        proof {
            let here = all.skip(i as int);
            assert(here.skip(1) =~= all.skip(i + 1));
            assert(done.push(all[i as int]) + before_links(here.skip(1)) =~= done + before_links(
                here,
            ));
            done = done.push(all[i as int]);
        }
        i += 1;
    }
    assert(done =~= before_links(rest));
    to_text(trim_chars(out.as_slice()))
}

/// No link entry is left in the introduction of an index.
pub proof fn lemma_intro_holds_no_link_entry(ls: Seq<Seq<char>>)
    ensures
        forall|i: int|
            0 <= i < before_links(ls).len() ==> !is_link_entry(trim(#[trigger] before_links(ls)[i])),
    decreases ls.len(),
{
    if ls.len() > 0 && !begins_links(trim(ls[0])) {
        let rest = before_links(ls.skip(1));
        lemma_intro_holds_no_link_entry(ls.skip(1));
        assert forall|i: int| 0 <= i < before_links(ls).len() implies !is_link_entry(
            trim(#[trigger] before_links(ls)[i]),
        ) by {
            if i == 0 {
                let t = trim(ls[0]);
                if is_link_entry(t) {
                    let at = t.len() - ".md)"@.len();
                    assert(t.subrange(at, at + ".md)"@.len()) =~= ".md)"@);
                }
            } else {
                assert(before_links(ls)[i] == rest[i - 1]);
            }
        }
    }
}

/// `s` without the `#` characters that it begins with.
pub open spec fn without_hashes(s: Seq<char>) -> Seq<char>
    decreases s.len(),
{
    if s.len() > 0 && s[0] == '#' {
        without_hashes(s.skip(1))
    } else {
        s
    }
}

/// `s` without the `**` markers that it begins with.
pub open spec fn without_bold_start(s: Seq<char>) -> Seq<char>
    decreases s.len(),
{
    if s.len() >= 2 && s[0] == '*' && s[1] == '*' {
        without_bold_start(s.skip(2))
    } else {
        s
    }
}

/// `s` without the `**` markers that it ends with.
pub open spec fn without_bold_end(s: Seq<char>) -> Seq<char>
    decreases s.len(),
{
    if s.len() >= 2 && s[s.len() - 1] == '*' && s[s.len() - 2] == '*' {
        without_bold_end(s.take(s.len() - 2))
    } else {
        s
    }
}

/// The text of a heading, without its markers and the asterisks that make it bold.
pub open spec fn heading_text(t: Seq<char>) -> Seq<char> {
    trim(without_bold_end(without_bold_start(trim(without_hashes(t)))))
}

/// A trimmed line that is the heading of an inline table of contents.
pub open spec fn is_toc_heading(t: Seq<char>) -> bool {
    let label = ascii_lowered(heading_text(t));
    t.len() > 0 && t[0] == '#' && (label == "in this part:"@ || label == "table of contents"@)
}

/// A trimmed line that is a list item with a link to a markdown file.
pub open spec fn is_toc_entry(t: Seq<char>) -> bool {
    begins_link_item(t) && find_pair(t, 0, ']', '(') is Some && is_part_of(".md)"@, t)
}

/// A line that may follow the heading of a table of contents: a blank one, or an entry.
pub open spec fn is_toc_line(line: Seq<char>) -> bool {
    trim(line).len() == 0 || is_toc_entry(trim(line))
}

/// Whether `ls` is an inline table of contents: its heading, and then nothing but entries.
pub open spec fn is_toc(ls: Seq<Seq<char>>) -> bool {
    &&& ls.len() > 0
    &&& is_toc_heading(trim(ls[0]))
    &&& forall|i: int| 0 < i < ls.len() ==> is_toc_line(#[trigger] ls[i])
    &&& exists|i: int| 0 < i < ls.len() && is_toc_entry(trim(#[trigger] ls[i]))
}

/// `ls` without the inline table of contents that it ends with.
pub open spec fn without_toc(ls: Seq<Seq<char>>) -> Seq<Seq<char>>
    decreases ls.len(),
{
    if ls.len() == 0 || is_toc(ls) {
        seq![]
    } else {
        seq![ls[0]] + without_toc(ls.skip(1))
    }
}

fn line_is_toc_heading(t: &[char]) -> (b: bool)
    ensures
        b == is_toc_heading(t@),
{
    if t.len() == 0 || t[0] != '#' {
        return false;
    }
    let mut at: usize = 0;
    assert(t@.skip(0) =~= t@);
    while at < t.len() && t[at] == '#'
        invariant
            at <= t.len(),
            without_hashes(t@) == without_hashes(t@.skip(at as int)),
        decreases t.len() - at,
    {
        assert(t@.skip(at as int).skip(1) =~= t@.skip(at + 1));
        at += 1;
    }
    let bold = trim_chars(slice_subrange(t, at, t.len()));
    let mut from: usize = 0;
    assert(bold@.skip(0) =~= bold@);
    while from < bold.len() && from + 1 < bold.len() && bold[from] == '*' && bold[from + 1] == '*'
        invariant
            from <= bold.len(),
            without_bold_start(bold@) == without_bold_start(bold@.skip(from as int)),
        decreases bold.len() - from,
    {
        assert(bold@.skip(from as int).skip(2) =~= bold@.skip(from + 2));
        from += 2;
    }
    let open = slice_subrange(bold, from, bold.len());
    let mut to: usize = open.len();
    assert(open@.take(to as int) =~= open@);
    while to >= 2 && open[to - 1] == '*' && open[to - 2] == '*'
        invariant
            to <= open.len(),
            without_bold_end(open@) == without_bold_end(open@.take(to as int)),
        decreases to,
    {
        assert(open@.take(to as int).take(to - 2) =~= open@.take(to - 2));
        to -= 2;
    }
    let label = to_ascii_lower(trim_chars(slice_subrange(open, 0, to)));
    is_word(label.as_slice(), "in this part:") || is_word(label.as_slice(), "table of contents")
}

fn line_is_toc_entry(t: &[char]) -> (b: bool)
    ensures
        b == is_toc_entry(t@),
{
    (starts_with(t, "- [") || starts_with(t, "* [")) && position_of_pair(t, 0, ']', '(').is_some()
        && contains_word(t, ".md)")
}

/// Whether the lines from the place `from` on are an inline table of contents.
fn lines_are_toc(ls: &Vec<&[char]>, from: usize, Ghost(all): Ghost<Seq<Seq<char>>>) -> (b: bool)
    requires
        from < ls@.len(),
        ls@.len() == all.len(),
        forall|j: int| 0 <= j < ls@.len() ==> (#[trigger] ls@[j])@ == all[j],
    ensures
        b == is_toc(all.skip(from as int)),
{
    let ghost here = all.skip(from as int);
    assert(here[0] == all[from as int]);
    if !line_is_toc_heading(trim_chars(ls[from])) {
        return false;
    }
    let len = ls.len();
    let mut found = false;
    let mut j: usize = from + 1;
    while j < len
        invariant
            from < j <= len,
            len == ls@.len(),
            ls@.len() == all.len(),
            here == all.skip(from as int),
            forall|k: int| 0 <= k < ls@.len() ==> (#[trigger] ls@[k])@ == all[k],
            forall|k: int| 0 < k < j - from ==> is_toc_line(#[trigger] here[k]),
            found == exists|k: int| 0 < k < j - from && is_toc_entry(trim(#[trigger] here[k])),
        decreases len - j,
    {
        let t = trim_chars(ls[j]);
        let entry = line_is_toc_entry(t);
        assert(here[j - from] == all[j as int]);
        if t.len() > 0 && !entry {
            assert(!is_toc_line(here[j - from]));
            return false;
        }
        if entry {
            found = true;
        }
        j += 1;
    }
    found
}

/// `content` without the inline table of contents that it ends with: a heading `In this part:` or
/// `Table of Contents`, behind which every line that is not blank is a list item with a link to a
/// markdown file. Where any other line follows the heading, all is kept.
pub fn strip_inline_toc(content: &str) -> (out: String)
    ensures
        out@ == joined(without_toc(lines(content@)), '\n'),
{
    let chars = to_chars(content);
    let ls = lines_of(chars.as_slice());
    let ghost all = lines(content@);
    let mut out: Vec<char> = Vec::new();
    let mut i: usize = 0;
    assert(all.skip(0) =~= all);
    assert(all.take(0) =~= seq![]);
    assert(all.take(0) + without_toc(all) =~= without_toc(all));
    while i < ls.len()
        invariant
            i <= ls.len(),
            ls@.len() == all.len(),
            all == lines(content@),
            forall|j: int| 0 <= j < ls@.len() ==> (#[trigger] ls@[j])@ == all[j],
            all.take(i as int) + without_toc(all.skip(i as int)) == without_toc(all),
            out@ == joined(all.take(i as int), '\n'),
        decreases ls.len() - i,
    {
        if lines_are_toc(&ls, i, Ghost(all)) {
            assert(all.take(i as int) + seq![] =~= all.take(i as int));
            return to_text(out.as_slice());
        }
        push_joined(&mut out, i == 0, ls[i], '\n', Ghost(all.take(i as int)));
        proof {
            assert(all.skip(i as int).skip(1) =~= all.skip(i + 1));
            assert(all.take(i + 1) =~= all.take(i as int).push(all[i as int]));
            assert(all.take(i + 1) + without_toc(all.skip(i + 1)) =~= all.take(i as int)
                + without_toc(all.skip(i as int)));
        }
        i += 1;
    }
    assert(all.take(i as int) + without_toc(all.skip(i as int)) =~= all.take(i as int));
    to_text(out.as_slice())
}

/// Lines without the heading of a table of contents stay as they are.
pub proof fn lemma_lines_without_toc(ls: Seq<Seq<char>>)
    requires
        forall|i: int| 0 <= i < ls.len() ==> !is_toc_heading(trim(#[trigger] ls[i])),
    ensures
        without_toc(ls) == ls,
    decreases ls.len(),
{
    if ls.len() > 0 {
        assert(!is_toc_heading(trim(ls[0])));
        assert forall|i: int| 0 <= i < ls.skip(1).len() implies !is_toc_heading(
            trim(#[trigger] ls.skip(1)[i]),
        ) by {
            assert(ls.skip(1)[i] == ls[i + 1]);
        }
        lemma_lines_without_toc(ls.skip(1));
        assert(seq![ls[0]] + ls.skip(1) =~= ls);
    }
}

/// A line that can be no part of a table of contents.
pub open spec fn is_prose(line: Seq<char>) -> bool {
    let t = trim(line);
    t.len() > 0 && !is_toc_heading(t) && !is_toc_entry(t)
}

/// The lines among `ls` that can be no part of a table of contents, in order.
pub open spec fn prose(ls: Seq<Seq<char>>) -> Seq<Seq<char>>
    decreases ls.len(),
{
    if ls.len() == 0 {
        seq![]
    } else if is_prose(ls[0]) {
        seq![ls[0]] + prose(ls.skip(1))
    } else {
        prose(ls.skip(1))
    }
}

/// Leaving out tables of contents loses no other line.
pub proof fn lemma_prose_is_kept(ls: Seq<Seq<char>>)
    ensures
        prose(without_toc(ls)) == prose(ls),
    decreases ls.len(),
{
    if ls.len() > 0 {
        let rest = ls.skip(1);
        if is_toc(ls) {
            assert forall|i: int| 0 <= i < ls.len() implies !is_prose(#[trigger] ls[i]) by {
                if i > 0 {
                    assert(is_toc_line(ls[i]));
                }
            }
            lemma_prose_skips(ls, ls.len() as int);
            assert(ls.skip(ls.len() as int) =~= seq![]);
        } else {
            lemma_prose_is_kept(rest);
            let kept = without_toc(ls);
            assert(kept[0] == ls[0]);
            assert(kept.skip(1) =~= without_toc(rest));
        }
    }
}

/// Whatever stands before a line that is neither blank nor an entry stays, tables of contents as
/// well.
pub proof fn lemma_blocks_before_text_stay(ls: Seq<Seq<char>>, k: int)
    requires
        0 <= k < ls.len(),
        is_prose(ls[k]),
    ensures
        ls.take(k + 1).is_prefix_of(without_toc(ls)),
    decreases ls.len(),
{
    if is_toc(ls) {
        if k > 0 {
            assert(is_toc_line(ls[k]));
        }
        assert(false);
    }
    let rest = ls.skip(1);
    let kept = without_toc(ls);
    assert(kept == seq![ls[0]] + without_toc(rest));
    if k > 0 {
        lemma_blocks_before_text_stay(rest, k - 1);
        assert(ls.take(k + 1) =~= seq![ls[0]] + rest.take(k));
        assert(rest.take(k) =~= without_toc(rest).take(k));
        assert(ls.take(k + 1) =~= kept.take(k + 1));
    } else {
        assert(ls.take(1) =~= kept.take(1));
    }
}

proof fn lemma_prose_skips(ls: Seq<Seq<char>>, n: int)
    requires
        0 <= n <= ls.len(),
        forall|i: int| 0 <= i < n ==> !is_prose(#[trigger] ls[i]),
    ensures
        prose(ls) == prose(ls.skip(n)),
    decreases n,
{
    if n == 0 {
        assert(ls.skip(0) =~= ls);
    } else {
        assert(!is_prose(ls[0]));
        assert forall|i: int| 0 <= i < n - 1 implies !is_prose(#[trigger] ls.skip(1)[i]) by {
            assert(ls.skip(1)[i] == ls[i + 1]);
        }
        lemma_prose_skips(ls.skip(1), n - 1);
        assert(ls.skip(1).skip(n - 1) =~= ls.skip(n));
    }
}

} // verus!
