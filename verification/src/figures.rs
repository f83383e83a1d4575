//! Figures: an image that stands alone on its line and has a title is shown with a caption.
use crate::lines::{
    body_of, ending_of, lemma_flatten_take, lemma_pieces_make_text, line_body, line_ending, pieces,
    pieces_of,
};
use crate::text::{
    find_pair, find_space, leading_space, position_of_pair, position_of_space, push_chars, push_str,
    to_chars, to_text, trim, trim_chars, trim_start, trim_start_chars, trimmed_len,
};
use vstd::prelude::*;
use vstd::slice::slice_subrange;

verus! {

/// Whether a backslash takes its meaning from the character at `i` of `s`.
pub open spec fn is_escaped(s: Seq<char>, i: int) -> bool {
    i > 0 && s[i - 1] == '\\'
}

/// How many of the brackets `open` and `close` are open behind the first `n` characters of `s`.
pub open spec fn open_brackets(s: Seq<char>, open: char, close: char, n: int) -> int
    decreases n,
{
    if n <= 0 {
        0
    } else if s[n - 1] == open && !is_escaped(s, n - 1) {
        open_brackets(s, open, close, n - 1) + 1
    } else if s[n - 1] == close && !is_escaped(s, n - 1) {
        open_brackets(s, open, close, n - 1) - 1
    } else {
        open_brackets(s, open, close, n - 1)
    }
}

/// Whether a bracket that was opened before `s` is closed in it: there is a closing one before
/// which none is open.
pub open spec fn is_closed_in(s: Seq<char>, open: char, close: char) -> bool {
    exists|n: int| 0 < n <= s.len() && #[trigger] open_brackets(s, open, close, n) < 0
}

/// Whether the bracket that closes the alternative text of an image stands in `alt`.
pub open spec fn closes_in_alt(alt: Seq<char>) -> bool {
    is_closed_in(alt, '[', ']')
}

/// Whether the parenthesis that closes an image stands in its URL.
pub open spec fn closes_in_url(url: Seq<char>) -> bool {
    is_closed_in(url, '(', ')')
}

/// Whether the title of an image ends at the place `k` of `title`: there is the quote that the
/// title begins with, and then the parenthesis that closes the image.
pub open spec fn title_ends_at(title: Seq<char>, k: int) -> bool {
    let rest = trim_start(title.skip(k + 1));
    title[k] == title[0] && !is_escaped(title, k) && rest.len() > 0 && rest[0] == ')'
}

/// Whether the parenthesis that closes an image stands in its title.
pub open spec fn closes_in_title(title: Seq<char>) -> bool {
    exists|k: int| 0 < k < title.len() - 1 && #[trigger] title_ends_at(title, k)
}

/// The alternative text, the URL and the caption of a line that holds an image with a title,
/// `![alt](url "caption")`, and nothing else but whitespace at its ends.
pub open spec fn figure_of(line: Seq<char>) -> Option<(Seq<char>, Seq<char>, Seq<char>)> {
    let t = trim(line);
    if t.len() < 2 || t[0] != '!' || t[1] != '[' || t.last() != ')' {
        None
    } else {
        match find_pair(t, 0, ']', '(') {
            None => None,
            Some(e) => {
                let alt = t.subrange(2, e);
                let inside = t.subrange(e + 2, t.len() - 1);
                match find_space(inside, 0) {
                    None => None,
                    Some(sp) => {
                        let url = inside.take(sp);
                        let title = trim(inside.skip(sp));
                        if url.len() == 0 || title.len() < 2 || (title[0] != '"' && title[0] != '\'')
                            || title.last() != title[0] || closes_in_alt(alt) || closes_in_url(url)
                            || closes_in_title(title) {
                            None
                        } else {
                            Some((alt, url, title.subrange(1, title.len() - 1)))
                        }
                    },
                }
            },
        }
    }
}

/// The view of a figure that `parse_figure_line` found.
pub open spec fn figure_view(f: Option<(&str, &str, String)>) -> Option<(
    Seq<char>,
    Seq<char>,
    Seq<char>,
)> {
    match f {
        Some((alt, url, caption)) => Some((alt@, url@, caption@)),
        None => None,
    }
}

fn bracket_closes(s: &[char], open: char, close: char) -> (b: bool)
    ensures
        b == is_closed_in(s@, open, close),
{
    let mut count: usize = 0;
    let mut n: usize = 0;
    while n < s.len()
        invariant
            n <= s.len(),
            count <= n,
            count == open_brackets(s@, open, close, n as int),
            forall|m: int| 0 < m <= n ==> #[trigger] open_brackets(s@, open, close, m) >= 0,
        decreases s.len() - n,
    {
        let escaped = n > 0 && s[n - 1] == '\\';
        if s[n] == open && !escaped {
            count += 1;
        } else if s[n] == close && !escaped {
            if count == 0 {
                assert(open_brackets(s@, open, close, n + 1) < 0);
                return true;
            }
            count -= 1;
        }
        n += 1;
    }
    false
}

fn title_closes(title: &[char]) -> (b: bool)
    requires
        title@.len() >= 2,
    ensures
        b == closes_in_title(title@),
{
    let mut k: usize = 1;
    while k < title.len() - 1
        invariant
            1 <= k <= title@.len() - 1,
            forall|j: int| 0 < j < k ==> !(#[trigger] title_ends_at(title@, j)),
        decreases title.len() - k,
    {
        if title[k] == title[0] && title[k - 1] != '\\' {
            let rest = trim_start_chars(slice_subrange(title, k + 1, title.len()));
            assert(title@.skip(k + 1) =~= title@.subrange(k + 1, title@.len() as int));
            if rest.len() > 0 && rest[0] == ')' {
                assert(title_ends_at(title@, k as int));
                return true;
            }
        }
        k += 1;
    }
    false
}

/// The alternative text, the URL and the caption of `line` if it is an image with a title that
/// stands alone on its line.
pub fn parse_figure_line(line: &str) -> (figure: Option<(&str, &str, String)>)
    ensures
        figure_view(figure) == figure_of(line@),
{
    let chars = to_chars(line);
    let s = chars.as_slice();
    let start = leading_space(s);
    let from_start = slice_subrange(s, start, s.len());
    let len = trimmed_len(from_start);
    let t = slice_subrange(from_start, 0, len);
    assert(t@ == trim(line@));
    assert(t@ =~= line@.subrange(start as int, start + len));
    if len < 2 || t[0] != '!' || t[1] != '[' || t[len - 1] != ')' {
        return None;
    }
    let e = match position_of_pair(t, 0, ']', '(') {
        Some(e) => e,
        None => return None,
    };
    assert(e >= 2 && e + 2 <= len - 1);
    let inside = slice_subrange(t, e + 2, len - 1);
    let sp = match position_of_space(inside) {
        Some(sp) => sp,
        None => return None,
    };
    let title = trim_chars(slice_subrange(inside, sp, inside.len()));
    if sp == 0 || title.len() < 2 || (title[0] != '"' && title[0] != '\'') || title[title.len() - 1]
        != title[0] {
        return None;
    }
    if bracket_closes(slice_subrange(t, 2, e), '[', ']') || bracket_closes(
        slice_subrange(inside, 0, sp),
        '(',
        ')',
    ) || title_closes(title) {
        return None;
    }
    let alt = line.substring_char(start + 2, start + e);
    let url = line.substring_char(start + e + 2, start + e + 2 + sp);
    proof {
        assert(alt@ =~= t@.subrange(2, e as int));
        assert(url@ =~= inside@.take(sp as int));
    }
    Some((alt, url, to_text(slice_subrange(title, 1, title.len() - 1))))
}

/// `c` as the markdown text that shows it inside emphasis.
pub open spec fn star_escape(c: char) -> Seq<char> {
    if c == '*' {
        seq!['\\', '*']
    } else {
        seq![c]
    }
}

/// `s` with a backslash before each asterisk.
pub open spec fn stars_escaped(s: Seq<char>) -> Seq<char>
    decreases s.len(),
{
    if s.len() == 0 {
        seq![]
    } else {
        stars_escaped(s.drop_last()) + star_escape(s.last())
    }
}

fn push_stars_escaped(out: &mut Vec<char>, s: &[char])
    ensures
        final(out)@ == old(out)@ + stars_escaped(s@),
{
    let mut i: usize = 0;
    assert(out@ =~= old(out)@ + stars_escaped(s@.take(0)));
    while i < s.len()
        invariant
            i <= s.len(),
            out@ == old(out)@ + stars_escaped(s@.take(i as int)),
        decreases s.len() - i,
    {
        let ghost before = out@;
        if s[i] == '*' {
            out.push('\\');
        }
        out.push(s[i]);
        i += 1;
        proof {
            assert(s@.take(i as int).drop_last() =~= s@.take(i - 1));
            assert(out@ =~= before + star_escape(s@[i - 1]));
            assert(out@ =~= old(out)@ + stars_escaped(s@.take(i as int)));
        }
    }
    assert(s@.take(s@.len() as int) =~= s@);
}

/// What parts the lines that a line becomes: its own ending, or a line feed where it has none.
pub open spec fn line_break(line: Seq<char>) -> Seq<char> {
    if line_ending(line).len() == 0 {
        seq!['\n']
    } else {
        line_ending(line)
    }
}

fn push_break(out: &mut Vec<char>, line: &[char])
    ensures
        final(out)@ == old(out)@ + line_break(line@),
{
    let end = ending_of(line);
    if end.len() == 0 {
        out.push('\n');
    } else {
        push_chars(out, end);
    }
    assert(out@ =~= old(out)@ + line_break(line@));
}

/// The markdown of an image without a title.
pub open spec fn md_image(alt: Seq<char>, url: Seq<char>) -> Seq<char> {
    seq!['!', '['] + alt + seq![']', '('] + url + seq![')']
}

/// The markdown of a caption in italics.
pub open spec fn md_caption(caption: Seq<char>) -> Seq<char> {
    seq!['*'] + stars_escaped(caption) + seq!['*']
}

/// What the viewer shows in place of `line`, which is a figure: the image, a blank line, and its
/// caption in italics.
pub open spec fn md_figure(
    line: Seq<char>,
    alt: Seq<char>,
    url: Seq<char>,
    caption: Seq<char>,
) -> Seq<char> {
    md_image(alt, url) + line_break(line) + line_break(line) + md_caption(caption) + line_ending(
        line,
    )
}

/// A line as the viewer shows it.
pub open spec fn md_line(line: Seq<char>) -> Seq<char> {
    match figure_of(line_body(line)) {
        None => line,
        Some((alt, url, caption)) => md_figure(line, alt, url, caption),
    }
}

/// A text as the viewer shows it.
pub open spec fn figures_as_md(content: Seq<char>) -> Seq<char> {
    pieces(content).map_values(|l: Seq<char>| md_line(l)).flatten()
}

/// Appends what the viewer shows in place of `line`, which is a figure.
pub fn push_md_figure(out: &mut Vec<char>, line: &[char], alt: &str, url: &str, caption: &str)
    ensures
        final(out)@ == old(out)@ + md_figure(line@, alt@, url@, caption@),
{
    out.push('!');
    out.push('[');
    push_str(out, alt);
    out.push(']');
    out.push('(');
    push_str(out, url);
    out.push(')');
    push_break(out, line);
    push_break(out, line);
    out.push('*');
    let caption_chars = to_chars(caption);
    push_stars_escaped(out, caption_chars.as_slice());
    out.push('*');
    push_chars(out, ending_of(line));
    assert(out@ =~= old(out)@ + md_figure(line@, alt@, url@, caption@));
}

fn push_md_line(out: &mut Vec<char>, line: &[char])
    ensures
        final(out)@ == old(out)@ + md_line(line@),
{
    let body = to_text(body_of(line));
    match parse_figure_line(body.as_str()) {
        Some((alt, url, caption)) => {
            push_md_figure(out, line, alt, url, caption.as_str());
        },
        None => {
            push_chars(out, line);
        },
    }
}

/// `content` for the viewer: each figure becomes the image and, below it, its caption in italics.
pub fn expand_figures_md(content: &str) -> (out: String)
    ensures
        out@ == figures_as_md(content@),
{
    let chars = to_chars(content);
    let all = pieces_of(chars.as_slice());
    let ghost mapped = pieces(content@).map_values(|l: Seq<char>| md_line(l));
    let mut out: Vec<char> = Vec::new();
    let mut i: usize = 0;
    assert(out@ =~= mapped.take(0).flatten());
    while i < all.len()
        invariant
            i <= all.len(),
            all@.len() == mapped.len(),
            mapped == pieces(content@).map_values(|l: Seq<char>| md_line(l)),
            forall|j: int| 0 <= j < all@.len() ==> (#[trigger] all@[j])@ == pieces(content@)[j],
            out@ == mapped.take(i as int).flatten(),
        decreases all.len() - i,
    {
        push_md_line(&mut out, all[i]);
        proof {
            lemma_flatten_take(mapped, i as int);
        }
        i += 1;
    }
    assert(mapped.take(mapped.len() as int) =~= mapped);
    to_text(out.as_slice())
}

/// `c` as HTML text.
pub open spec fn html_char(c: char) -> Seq<char> {
    if c == '&' {
        "&amp;"@
    } else if c == '<' {
        "&lt;"@
    } else if c == '>' {
        "&gt;"@
    } else if c == '"' {
        "&quot;"@
    } else if c == '\'' {
        "&#39;"@
    } else {
        seq![c]
    }
}

/// `s` as HTML text.
pub open spec fn html_escaped(s: Seq<char>) -> Seq<char>
    decreases s.len(),
{
    if s.len() == 0 {
        seq![]
    } else {
        html_escaped(s.drop_last()) + html_char(s.last())
    }
}

/// `s` as HTML text, fit for an attribute too.
pub fn escape_html(s: &str) -> (out: String)
    ensures
        out@ == html_escaped(s@),
{
    let chars = to_chars(s);
    let mut out: Vec<char> = Vec::new();
    let mut i: usize = 0;
    assert(out@ =~= html_escaped(s@.take(0)));
    while i < chars.len()
        invariant
            i <= chars.len(),
            chars@ == s@,
            out@ == html_escaped(s@.take(i as int)),
        decreases chars.len() - i,
    {
        let c = chars[i];
        let ghost before = out@;
        if c == '&' {
            push_str(&mut out, "&amp;");
        } else if c == '<' {
            push_str(&mut out, "&lt;");
        } else if c == '>' {
            push_str(&mut out, "&gt;");
        } else if c == '"' {
            push_str(&mut out, "&quot;");
        } else if c == '\'' {
            push_str(&mut out, "&#39;");
        } else {
            out.push(c);
        }
        i += 1;
        proof {
            assert(out@ =~= before + html_char(c));
            assert(s@.take(i as int).drop_last() =~= s@.take(i - 1));
        }
    }
    assert(s@.take(s@.len() as int) =~= s@);
    to_text(out.as_slice())
}

/// The HTML of a figure.
pub open spec fn html_figure(alt: Seq<char>, url: Seq<char>, caption: Seq<char>) -> Seq<char> {
    "<figure><img src=\""@ + html_escaped(url) + "\" alt=\""@ + html_escaped(alt)
        + "\"><figcaption>"@ + html_escaped(caption) + "</figcaption></figure>"@
}

/// What the book holds in place of `line`, which is a figure: an HTML figure between blank lines.
pub open spec fn html_block(
    line: Seq<char>,
    alt: Seq<char>,
    url: Seq<char>,
    caption: Seq<char>,
) -> Seq<char> {
    line_break(line) + html_figure(alt, url, caption) + line_break(line) + line_break(line)
}

/// A line as the book holds it.
pub open spec fn html_line(line: Seq<char>) -> Seq<char> {
    match figure_of(line_body(line)) {
        None => line,
        Some((alt, url, caption)) => html_block(line, alt, url, caption),
    }
}

/// A text as the book holds it.
pub open spec fn figures_as_html(content: Seq<char>) -> Seq<char> {
    pieces(content).map_values(|l: Seq<char>| html_line(l)).flatten()
}

/// Appends what the book holds in place of `line`, which is a figure.
pub fn push_html_block(out: &mut Vec<char>, line: &[char], alt: &str, url: &str, caption: &str)
    ensures
        final(out)@ == old(out)@ + html_block(line@, alt@, url@, caption@),
{
    let url_html = escape_html(url);
    let alt_html = escape_html(alt);
    let caption_html = escape_html(caption);
    push_break(out, line);
    push_str(out, "<figure><img src=\"");
    push_str(out, url_html.as_str());
    push_str(out, "\" alt=\"");
    push_str(out, alt_html.as_str());
    push_str(out, "\"><figcaption>");
    push_str(out, caption_html.as_str());
    push_str(out, "</figcaption></figure>");
    push_break(out, line);
    push_break(out, line);
    assert(out@ =~= old(out)@ + html_block(line@, alt@, url@, caption@));
}

fn push_html_line(out: &mut Vec<char>, line: &[char])
    ensures
        final(out)@ == old(out)@ + html_line(line@),
{
    let body = to_text(body_of(line));
    match parse_figure_line(body.as_str()) {
        Some((alt, url, caption)) => {
            push_html_block(out, line, alt, url, caption.as_str());
        },
        None => {
            push_chars(out, line);
        },
    }
}

/// `content` for the book: each figure becomes an HTML figure with its caption.
pub fn expand_figures_html(content: &str) -> (out: String)
    ensures
        out@ == figures_as_html(content@),
{
    let chars = to_chars(content);
    let all = pieces_of(chars.as_slice());
    let ghost mapped = pieces(content@).map_values(|l: Seq<char>| html_line(l));
    let mut out: Vec<char> = Vec::new();
    let mut i: usize = 0;
    assert(out@ =~= mapped.take(0).flatten());
    while i < all.len()
        invariant
            i <= all.len(),
            all@.len() == mapped.len(),
            mapped == pieces(content@).map_values(|l: Seq<char>| html_line(l)),
            forall|j: int| 0 <= j < all@.len() ==> (#[trigger] all@[j])@ == pieces(content@)[j],
            out@ == mapped.take(i as int).flatten(),
        decreases all.len() - i,
    {
        push_html_line(&mut out, all[i]);
        proof {
            lemma_flatten_take(mapped, i as int);
        }
        i += 1;
    }
    assert(mapped.take(mapped.len() as int) =~= mapped);
    to_text(out.as_slice())
}

/// A text without figures stays as it is, for the viewer and for the book.
pub proof fn lemma_text_without_figures(content: Seq<char>)
    requires
        forall|i: int|
            0 <= i < pieces(content).len() ==> figure_of(
                line_body(#[trigger] pieces(content)[i]),
            ) is None,
    ensures
        figures_as_md(content) == content,
        figures_as_html(content) == content,
{
    lemma_pieces_make_text(content);
    assert(pieces(content).map_values(|l: Seq<char>| md_line(l)) =~= pieces(content));
    assert(pieces(content).map_values(|l: Seq<char>| html_line(l)) =~= pieces(content));
}

/// HTML text holds no character that could open a tag or end an attribute.
pub proof fn lemma_escaped_html_is_inert(s: Seq<char>)
    ensures
        forall|i: int|
            0 <= i < html_escaped(s).len() ==> {
                let c = #[trigger] html_escaped(s)[i];
                c != '<' && c != '>' && c != '"' && c != '\''
            },
    decreases s.len(),
{
    if s.len() > 0 {
        let front = html_escaped(s.drop_last());
        lemma_escaped_html_is_inert(s.drop_last());
        lemma_html_char_is_inert(s.last());
        assert forall|i: int| 0 <= i < html_escaped(s).len() implies {
            let c = #[trigger] html_escaped(s)[i];
            c != '<' && c != '>' && c != '"' && c != '\''
        } by {
            if i < front.len() {
                assert(html_escaped(s)[i] == front[i]);
            } else {
                assert(html_escaped(s)[i] == html_char(s.last())[i - front.len()]);
            }
        }
    }
}

proof fn lemma_html_char_is_inert(c: char)
    ensures
        forall|i: int|
            0 <= i < html_char(c).len() ==> {
                let d = #[trigger] html_char(c)[i];
                d != '<' && d != '>' && d != '"' && d != '\''
            },
{
    reveal_strlit("&amp;");
    reveal_strlit("&lt;");
    reveal_strlit("&gt;");
    reveal_strlit("&quot;");
    reveal_strlit("&#39;");
}

} // verus!
