//! Names as readers see them: from headings, file names and directory names.
use crate::lines::{joined, lines, lines_of, push_joined};
use crate::paths::{file_name, is_file_name_of, stem, stem_of, text_of};
use crate::text::{
    ascii_lowered, find_char, position_of, push_chars, push_str, starts_with, to_ascii_lower,
    to_chars, to_text, trim, trim_chars,
};
use vstd::prelude::*;
use vstd::slice::slice_subrange;

verus! {

/// What `char::to_uppercase` yields for a character: its upper-case form in Unicode, which can
/// be more than one character.
pub uninterp spec fn uppercase(c: char) -> Seq<char>;

/// `c` in upper case where it is an ASCII letter.
pub open spec fn ascii_upper(c: char) -> char {
    if 'a' <= c <= 'z' {
        (c as u8 - 32) as char
    } else {
        c
    }
}

/// `char::to_uppercase`: the characters that it yields depend on the character alone, there is at
/// least one of them, and for an ASCII character there is one, its upper-case letter or itself.
#[verifier::external_body]
pub(crate) fn char_to_uppercase(c: char) -> (out: Vec<char>)
    ensures
        out@ == uppercase(c),
        out@.len() > 0,
        c as u32 <= 0x7f ==> out@ == seq![ascii_upper(c)],
{
    c.to_uppercase().collect()
}

/// A character that parts the words of a slug.
pub open spec fn is_dash(c: char) -> bool {
    c == '-' || c == '_'
}

/// The number of characters that `s` begins with before the first dash.
pub open spec fn word_len(s: Seq<char>) -> int
    decreases s.len(),
{
    if s.len() == 0 || is_dash(s[0]) {
        0
    } else {
        1 + word_len(s.skip(1))
    }
}

/// The words of a slug: the runs of characters between dashes.
pub open spec fn words(s: Seq<char>) -> Seq<Seq<char>>
    decreases s.len(),
{
    if s.len() == 0 {
        seq![]
    } else if is_dash(s[0]) {
        words(s.skip(1))
    } else {
        proof {
            lemma_word_len(s);
        }
        seq![s.take(word_len(s))] + words(s.skip(word_len(s)))
    }
}

/// A word lies within its slug, and ends at a dash or at the end.
pub proof fn lemma_word_len(s: Seq<char>)
    ensures
        0 <= word_len(s) <= s.len(),
        s.len() > 0 && !is_dash(s[0]) ==> word_len(s) > 0,
        forall|i: int| 0 <= i < word_len(s) ==> !is_dash(#[trigger] s[i]),
        word_len(s) < s.len() ==> is_dash(s[word_len(s)]),
    decreases s.len(),
{
    if s.len() > 0 && !is_dash(s[0]) {
        lemma_word_len(s.skip(1));
        let n = word_len(s.skip(1));
        assert forall|i: int| 0 <= i < word_len(s) implies !is_dash(#[trigger] s[i]) by {
            if i > 0 {
                assert(s[i] == s.skip(1)[i - 1]);
            }
        }
        if n + 1 < s.len() {
            assert(s[n + 1] == s.skip(1)[n]);
        }
    }
}

/// A character in upper case, which can be more than one character outside ASCII.
pub open spec fn upper(c: char) -> Seq<char> {
    if c as u32 <= 0x7f {
        seq![ascii_upper(c)]
    } else {
        uppercase(c)
    }
}

/// A word with its first character in upper case.
pub open spec fn capitalized(word: Seq<char>) -> Seq<char> {
    if word.len() == 0 {
        seq![]
    } else {
        upper(word[0]) + word.skip(1)
    }
}

/// The words `ws`, each capitalized.
pub open spec fn all_capitalized(ws: Seq<Seq<char>>) -> Seq<Seq<char>> {
    ws.map_values(|w: Seq<char>| capitalized(w))
}

/// A slug as a title: its words, capitalized, with a space between each two.
pub open spec fn slug_title(slug: Seq<char>) -> Seq<char> {
    joined(all_capitalized(words(slug)), ' ')
}

/// A kebab-case or snake_case slug as a title: `part-1-vision` becomes `Part 1 Vision`.
pub fn slug_to_title(slug: &str) -> (out: String)
    ensures
        out@ == slug_title(slug@),
{
    let chars = to_chars(slug);
    let s = chars.as_slice();
    let mut out: Vec<char> = Vec::new();
    let mut first = true;
    let mut at: usize = 0;
    let ghost mut done: Seq<Seq<char>> = seq![];
    proof {
        assert(s@.skip(0) =~= s@);
        assert(done + words(s@) =~= words(slug@));
    }
    while at < s.len()
        invariant
            at <= s.len(),
            s@ == slug@,
            done + words(s@.skip(at as int)) == words(slug@),
            first == (done.len() == 0),
            out@ == joined(all_capitalized(done), ' '),
        decreases s.len() - at,
    {
        let ghost rest = s@.skip(at as int);
        if s[at] == '-' || s[at] == '_' {
            assert(rest.skip(1) =~= s@.skip(at + 1));
            at += 1;
        } else {
            let mut end: usize = at;
            while end < s.len() && s[end] != '-' && s[end] != '_'
                invariant
                    at <= end <= s.len(),
                    word_len(s@.skip(at as int)) == end - at + word_len(s@.skip(end as int)),
                decreases s.len() - end,
            {
                assert(s@.skip(end as int).skip(1) =~= s@.skip(end + 1));
                end += 1;
            }
            proof {
                lemma_word_len(rest);
                assert(rest.skip(end - at) =~= s@.skip(end as int));
            }
            let word = slice_subrange(s, at, end);
            let mut title: Vec<char> = char_to_uppercase(word[0]);
            push_chars(&mut title, slice_subrange(word, 1, word.len()));
            proof {
                assert(word@ =~= rest.take(end - at));
                assert(title@ =~= capitalized(word@));
                assert(all_capitalized(done.push(word@)) =~= all_capitalized(done).push(title@));
                assert(done.push(word@) + words(s@.skip(end as int)) =~= done + words(rest));
            }
            push_joined(&mut out, first, title.as_slice(), ' ', Ghost(all_capitalized(done)));
            proof {
                done = done.push(word@);
            }
            first = false;
            at = end;
        }
    }
    proof {
        assert(words(s@.skip(at as int)) =~= seq![]);
        assert(done =~= words(slug@));
    }
    to_text(out.as_slice())
}

/// A text of ASCII digits.
pub open spec fn all_digits(s: Seq<char>) -> bool {
    forall|i: int| 0 <= i < s.len() ==> '0' <= #[trigger] s[i] <= '9'
}

fn chars_all_digits(s: &[char]) -> (b: bool)
    ensures
        b == all_digits(s@),
{
    let mut i: usize = 0;
    while i < s.len()
        invariant
            i <= s.len(),
            forall|j: int| 0 <= j < i ==> '0' <= #[trigger] s@[j] <= '9',
        decreases s.len() - i,
    {
        if s[i] < '0' || s[i] > '9' {
            return false;
        }
        i += 1;
    }
    true
}

/// The number and the slug of a directory name `part-N-slug`.
pub open spec fn numbered_part(name: Seq<char>) -> Option<(Seq<char>, Seq<char>)> {
    if !"part-"@.is_prefix_of(ascii_lowered(name)) {
        None
    } else {
        let rest = name.skip(5);
        match find_char(rest, 0, '-') {
            Some(i) => if all_digits(rest.take(i)) {
                Some((rest.take(i), rest.skip(i + 1)))
            } else {
                None
            },
            None => None,
        }
    }
}

/// A directory name as a heading.
pub open spec fn dir_title(name: Seq<char>) -> Seq<char> {
    match numbered_part(name) {
        Some((number, slug)) => "Part "@ + number + " — "@ + slug_title(slug),
        None => slug_title(name),
    }
}

/// A directory name as a heading: `part-1-vision` becomes `Part 1 — Vision`, any other name is
/// taken as a slug.
pub fn dir_display_name(dir_name: &str) -> (out: String)
    ensures
        out@ == dir_title(dir_name@),
{
    let chars = to_chars(dir_name);
    let lower = to_ascii_lower(chars.as_slice());
    proof {
        reveal_strlit("part-");
    }
    if starts_with(lower.as_slice(), "part-") {
        let rest = slice_subrange(chars.as_slice(), 5, chars.len());
        match position_of(rest, 0, '-') {
            Some(i) => {
                let number = slice_subrange(rest, 0, i);
                if chars_all_digits(number) {
                    let slug = to_text(slice_subrange(rest, i + 1, rest.len()));
                    let title = slug_to_title(slug.as_str());
                    let mut out: Vec<char> = Vec::new();
                    push_str(&mut out, "Part ");
                    push_chars(&mut out, number);
                    push_str(&mut out, " — ");
                    push_str(&mut out, title.as_str());
                    assert(out@ =~= dir_title(dir_name@));
                    return to_text(out.as_slice());
                }
            },
            None => {},
        }
    }
    slug_to_title(dir_name)
}

/// `s` without the `# ` markers that it begins with.
pub open spec fn without_markers(s: Seq<char>) -> Seq<char>
    decreases s.len(),
{
    if is_title_line(s) {
        without_markers(s.skip(2))
    } else {
        s
    }
}

/// A trimmed line that is a heading of the first level.
pub open spec fn is_title_line(t: Seq<char>) -> bool {
    t.len() >= 2 && t[0] == '#' && t[1] == ' '
}

/// The text of the first heading of the first level among `ls`.
pub open spec fn first_heading(ls: Seq<Seq<char>>) -> Option<Seq<char>>
    decreases ls.len(),
{
    if ls.len() == 0 {
        None
    } else if is_title_line(trim(ls[0])) {
        Some(trim(without_markers(trim(ls[0]))))
    } else {
        first_heading(ls.skip(1))
    }
}

/// The name of a document whose file name has the stem `stem`: its first heading, or the stem as
/// a title.
pub open spec fn document_title(content: Seq<char>, stem: Seq<char>) -> Seq<char> {
    match first_heading(lines(content)) {
        Some(t) => if t.len() > 0 {
            t
        } else {
            slug_title(stem)
        },
        None => slug_title(stem),
    }
}

pub(crate) fn line_is_title(t: &[char]) -> (b: bool)
    ensures
        b == is_title_line(t@),
{
    t.len() >= 2 && t[0] == '#' && t[1] == ' '
}

fn drop_markers(s: &[char]) -> (out: &[char])
    ensures
        out@ == without_markers(s@),
{
    let mut at: usize = 0;
    assert(s@.skip(0) =~= s@);
    while line_is_title(slice_subrange(s, at, s.len()))
        invariant
            at <= s.len(),
            without_markers(s@) == without_markers(s@.skip(at as int)),
        decreases s.len() - at,
    {
        assert(s@.skip(at as int).skip(2) =~= s@.skip(at + 2));
        at += 2;
    }
    slice_subrange(s, at, s.len())
}

/// The name of a document with the text `content`, whose file name has the stem `stem`.
pub fn title_of(content: &str, stem: &str) -> (out: String)
    ensures
        out@ == document_title(content@, stem@),
{
    let chars = to_chars(content);
    let ls = lines_of(chars.as_slice());
    let ghost all = lines(content@);
    let mut i: usize = 0;
    assert(all.skip(0) =~= all);
    while i < ls.len()
        invariant
            i <= ls.len(),
            ls@.len() == all.len(),
            all == lines(content@),
            forall|j: int| 0 <= j < ls@.len() ==> (#[trigger] ls@[j])@ == all[j],
            first_heading(all) == first_heading(all.skip(i as int)),
        decreases ls.len() - i,
    {
        let t = trim_chars(ls[i]);
        if line_is_title(t) {
            let title = trim_chars(drop_markers(t));
            if title.len() > 0 {
                return to_text(title);
            }
            return slug_to_title(stem);
        }
        assert(all.skip(i as int).skip(1) =~= all.skip(i + 1));
        i += 1;
    }
    slug_to_title(stem)
}

/// The stem of a file name, or nothing where there is no name.
pub open spec fn stem_or_empty(name: Option<Seq<char>>) -> Seq<char> {
    match name {
        Some(n) => stem(n),
        None => seq![],
    }
}

/// The stem of the file name of `path`, or nothing where the path names no file.
pub fn path_stem(path: &str) -> (out: String)
    ensures
        exists|name: Option<Seq<char>>|
            is_file_name_of(path@, name) && out@ == #[trigger] stem_or_empty(name),
{
    let name = file_name(path);
    let ghost view = text_of(name);
    let out = match name {
        Some(n) => stem_of(n.as_str()),
        None => String::new(),
    };
    proof {
        assert(out@ =~= stem_or_empty(view));
    }
    out
}

/// The name of the document at `path` with the text `content`: its first heading, or its file
/// name without the extension as a title.
pub fn display_name_for(content: &str, path: &str) -> (out: String)
    ensures
        exists|name: Option<Seq<char>>|
            is_file_name_of(path@, name) && out@ == document_title(
                content@,
                #[trigger] stem_or_empty(name),
            ),
{
    let stem = path_stem(path);
    title_of(content, stem.as_str())
}

} // verus!
