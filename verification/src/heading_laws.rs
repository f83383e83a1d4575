//! What documents and directories are called.
use crate::lines::lines;
use crate::paths::{last_dot, stem};
use crate::text::{ascii_lowered, find_char, is_space, lemma_find_char, trim};
use crate::text_laws::{is_blank, lemma_trimming};
use crate::titles::{
    dir_title, document_title, first_heading, is_title_line, slug_title, stem_or_empty,
    without_markers,
};
use vstd::prelude::*;

verus! {

/// A directory `part-N-slug` is called part `N`, with the title of the slug behind it.
pub proof fn lemma_numbered_directories(part: Seq<char>, number: Seq<char>, slug: Seq<char>)
    requires
        ascii_lowered(part) == seq!['p', 'a', 'r', 't', '-'],
        forall|i: int| 0 <= i < number.len() ==> '0' <= #[trigger] number[i] <= '9',
    ensures
        dir_title(part + number + seq!['-'] + slug) == "Part "@ + number + " — "@ + slug_title(slug),
{
    reveal_strlit("part-");
    let name = part + number + seq!['-'] + slug;
    let low = ascii_lowered(name);
    assert(part.len() == 5) by {
        assert(ascii_lowered(part).len() == part.len());
    }
    assert(low.subrange(0, 5) =~= ascii_lowered(part));
    assert("part-"@ =~= seq!['p', 'a', 'r', 't', '-']);
    let rest = name.skip(5);
    let n = number.len() as int;
    assert(rest =~= number + seq!['-'] + slug);
    lemma_find_char(rest, 0, '-');
    assert(rest[n] == '-');
    assert forall|i: int| 0 <= i < n implies rest[i] != '-' by {
        assert(rest[i] == number[i]);
        assert('0' <= number[i] <= '9');
    }
    assert(find_char(rest, 0, '-') == Some(n));
    assert(rest.take(n) =~= number);
    assert(rest.skip(n + 1) =~= slug);
}

/// Any other directory has its name as a title: one that does not begin with `part-`, or in which
/// anything but digits stands between that and the next dash.
pub proof fn lemma_other_directories(name: Seq<char>, k: int)
    ensures
        name.len() < 5 ==> dir_title(name) == slug_title(name),
        name.len() >= 5 && ascii_lowered(name.take(5)) != seq!['p', 'a', 'r', 't', '-']
            ==> dir_title(name) == slug_title(name),
        name.len() >= 5 && !name.skip(5).contains('-') ==> dir_title(name) == slug_title(name),
        5 <= k < name.len() && !('0' <= name[k] <= '9') && name[k] != '-' && !name.subrange(
            5,
            k,
        ).contains('-') ==> dir_title(name) == slug_title(name),
{
    reveal_strlit("part-");
    let low = ascii_lowered(name);
    if "part-"@.is_prefix_of(low) {
        assert(low.len() == name.len());
        assert(low.subrange(0, 5) =~= ascii_lowered(name.take(5)));
        assert("part-"@ =~= seq!['p', 'a', 'r', 't', '-']);
        let rest = name.skip(5);
        lemma_find_char(rest, 0, '-');
        if let Some(i) = find_char(rest, 0, '-') {
            assert(rest.contains(rest[i]));
            if 5 <= k < name.len() && !('0' <= name[k] <= '9') && name[k] != '-'
                && !name.subrange(5, k).contains('-') {
                if i < k - 5 {
                    assert(name.subrange(5, k)[i] == '-');
                }
                assert(i != k - 5) by {
                    if i == k - 5 {
                        assert(rest[i] == name[k]);
                    }
                }
                assert(rest.take(i)[k - 5] == name[k]);
            }
        }
    }
}

proof fn lemma_first_heading_found(
    before: Seq<Seq<char>>,
    line: Seq<char>,
    behind: Seq<Seq<char>>,
)
    requires
        forall|i: int| 0 <= i < before.len() ==> !is_title_line(trim(#[trigger] before[i])),
        is_title_line(trim(line)),
    ensures
        first_heading(before + (seq![line] + behind)) == Some(trim(without_markers(trim(line)))),
    decreases before.len(),
{
    let all = before + (seq![line] + behind);
    if before.len() == 0 {
        assert(all[0] == line);
    } else {
        let rest = before.skip(1);
        assert(all[0] == before[0]);
        assert(!is_title_line(trim(before[0])));
        assert(all.skip(1) =~= rest + (seq![line] + behind));
        assert forall|i: int| 0 <= i < rest.len() implies !is_title_line(
            trim(#[trigger] rest[i]),
        ) by {
            assert(rest[i] == before[i + 1]);
        }
        lemma_first_heading_found(rest, line, behind);
    }
}

/// A document is called what its first heading of the first level says.
pub proof fn lemma_documents_have_titles(
    content: Seq<char>,
    before: Seq<Seq<char>>,
    indent: Seq<char>,
    space: Seq<char>,
    title: Seq<char>,
    tail: Seq<char>,
    behind: Seq<Seq<char>>,
    stem: Seq<char>,
)
    requires
        lines(content) == before + (seq![indent + (seq!['#', ' '] + space + title) + tail] + behind),
        forall|i: int| 0 <= i < before.len() ==> !is_title_line(trim(#[trigger] before[i])),
        is_blank(indent),
        is_blank(space),
        is_blank(tail),
        title.len() > 0,
        title.len() == 1 || title[0] != '#' || title[1] != ' ',
        !is_space(title[0]),
        !is_space(title.last()),
    ensures
        document_title(content, stem) == title,
{
    let core = seq!['#', ' '] + space + title;
    let line = indent + core + tail;
    let none = Seq::<char>::empty();
    assert(core.last() == title.last());
    assert(core[0] == '#' && core[1] == ' ');
    lemma_trimming(indent, core, tail);
    lemma_first_heading_found(before, line, behind);
    let rest = space + title;
    assert(core.skip(2) =~= rest);
    assert(!is_title_line(rest)) by {
        if space.len() > 0 {
            assert(is_space(space[0]));
            assert(rest[0] == space[0]);
        }
    }
    assert(without_markers(rest) == rest);
    assert(without_markers(core) == rest);
    lemma_trimming(space, title, none);
    assert(space + title + none =~= rest);
}

/// Marks that are repeated are left out as well.
pub proof fn lemma_repeated_marks(s: Seq<char>)
    ensures
        without_markers(seq!['#', ' '] + s) == without_markers(s),
        s.len() < 2 || s[0] != '#' || s[1] != ' ' ==> without_markers(s) == s,
{
    assert((seq!['#', ' '] + s).skip(2) =~= s);
}

/// A document without such a heading is called after its file.
pub proof fn lemma_documents_without_titles(content: Seq<char>, name: Seq<char>)
    requires
        forall|i: int|
            0 <= i < lines(content).len() ==> !is_title_line(trim(#[trigger] lines(content)[i])),
    ensures
        document_title(content, stem_or_empty(Some(name))) == slug_title(stem(name)),
        document_title(content, stem_or_empty(None)) == slug_title(seq![]),
{
    lemma_no_heading_found(lines(content));
}

proof fn lemma_no_heading_found(ls: Seq<Seq<char>>)
    requires
        forall|i: int| 0 <= i < ls.len() ==> !is_title_line(trim(#[trigger] ls[i])),
    ensures
        first_heading(ls) is None,
    decreases ls.len(),
{
    if ls.len() > 0 {
        let rest = ls.skip(1);
        assert(!is_title_line(trim(ls[0])));
        assert forall|i: int| 0 <= i < rest.len() implies !is_title_line(
            trim(#[trigger] rest[i]),
        ) by {
            assert(rest[i] == ls[i + 1]);
        }
        lemma_no_heading_found(rest);
    }
}

proof fn lemma_no_dot(s: Seq<char>)
    requires
        !s.contains('.'),
    ensures
        last_dot(s) is None,
    decreases s.len(),
{
    if s.len() > 0 {
        assert(s.contains(s.last()));
        assert(!s.drop_last().contains('.')) by {
            if s.drop_last().contains('.') {
                let k = choose|k: int| 0 <= k < s.drop_last().len() && s.drop_last()[k] == '.';
                assert(s[k] == '.');
            }
        }
        lemma_no_dot(s.drop_last());
    }
}

proof fn lemma_dot_found(a: Seq<char>, b: Seq<char>)
    requires
        !b.contains('.'),
    ensures
        last_dot(a + seq!['.'] + b) == Some(a.len() as int),
    decreases b.len(),
{
    let s = a + seq!['.'] + b;
    if b.len() > 0 {
        assert(b.contains(b.last()));
        assert(s.last() == b.last());
        assert(s.drop_last() =~= a + seq!['.'] + b.drop_last());
        assert(!b.drop_last().contains('.')) by {
            if b.drop_last().contains('.') {
                let k = choose|k: int| 0 <= k < b.drop_last().len() && b.drop_last()[k] == '.';
                assert(b[k] == '.');
            }
        }
        lemma_dot_found(a, b.drop_last());
    } else {
        assert(s.last() == '.');
    }
}

/// The extension of a file name begins with its last dot, unless the name itself begins with it.
pub proof fn lemma_extensions(a: Seq<char>, b: Seq<char>)
    requires
        !b.contains('.'),
    ensures
        a.len() > 0 ==> stem(a + seq!['.'] + b) == a,
        stem(seq!['.'] + b) == seq!['.'] + b,
        stem(b) == b,
{
    lemma_dot_found(a, b);
    lemma_dot_found(seq![], b);
    lemma_no_dot(b);
    assert(Seq::<char>::empty() + seq!['.'] + b =~= seq!['.'] + b);
    assert((a + seq!['.'] + b).take(a.len() as int) =~= a);
}

} // verus!
