//! What holds of figures: which texts they change, and that they change them once.
use crate::figures::{
    figure_of, figures_as_html, figures_as_md, html_char, html_escaped, html_figure, html_line,
    lemma_text_without_figures, line_break, md_caption, md_image, md_line, stars_escaped,
};
use crate::lines::{
    ends_line, is_piece, lemma_flatten_take, lemma_one_piece, lemma_pieces_are_lines,
    lemma_pieces_of_both, line_body, line_ending, pieces,
};
use crate::text::{
    find_pair, find_space, lemma_find_pair, lemma_find_space, lemma_nothing_to_trim,
    lemma_trim_is_part, trim,
};
use vstd::prelude::*;

verus! {

/// A text of which no line is a figure.
pub open spec fn has_no_figure(s: Seq<char>) -> bool {
    forall|i: int|
        0 <= i < pieces(s).len() ==> figure_of(line_body(#[trigger] pieces(s)[i])) is None
}

proof fn lemma_no_figure_in_line(s: Seq<char>)
    requires
        is_piece(s),
        figure_of(line_body(s)) is None,
    ensures
        has_no_figure(s),
{
    lemma_one_piece(s);
}

proof fn lemma_no_figure_in_both(a: Seq<char>, b: Seq<char>)
    requires
        ends_line(a),
        has_no_figure(a),
        has_no_figure(b),
    ensures
        has_no_figure(a + b),
{
    lemma_pieces_of_both(a, b);
    let all = pieces(a + b);
    assert forall|i: int| 0 <= i < all.len() implies figure_of(
        line_body(#[trigger] all[i]),
    ) is None by {
        if i < pieces(a).len() {
            assert(all[i] == pieces(a)[i]);
        } else {
            assert(all[i] == pieces(b)[i - pieces(a).len()]);
        }
    }
}

/// Texts without line feeds.
pub open spec fn is_unbroken(s: Seq<char>) -> bool {
    forall|i: int| 0 <= i < s.len() ==> #[trigger] s[i] != '\n'
}

proof fn lemma_stars_unbroken(s: Seq<char>)
    requires
        is_unbroken(s),
    ensures
        is_unbroken(stars_escaped(s)),
    decreases s.len(),
{
    if s.len() > 0 {
        let front = s.drop_last();
        assert forall|i: int| 0 <= i < front.len() implies #[trigger] front[i] != '\n' by {
            assert(front[i] == s[i]);
        }
        lemma_stars_unbroken(front);
        assert(s[s.len() - 1] != '\n');
    }
}

proof fn lemma_html_unbroken(s: Seq<char>)
    requires
        is_unbroken(s),
    ensures
        is_unbroken(html_escaped(s)),
    decreases s.len(),
{
    reveal_strlit("&amp;");
    reveal_strlit("&lt;");
    reveal_strlit("&gt;");
    reveal_strlit("&quot;");
    reveal_strlit("&#39;");
    if s.len() > 0 {
        let front = s.drop_last();
        assert forall|i: int| 0 <= i < front.len() implies #[trigger] front[i] != '\n' by {
            assert(front[i] == s[i]);
        }
        lemma_html_unbroken(front);
        assert(s[s.len() - 1] != '\n');
        assert(is_unbroken(html_char(s.last())));
    }
}

/// The parts of a figure hold no line feed, and its URL no whitespace.
proof fn lemma_figure_parts(line: Seq<char>)
    requires
        is_piece(line),
        figure_of(line_body(line)) is Some,
    ensures
        ({
            let (alt, url, caption) = figure_of(line_body(line))->0;
            &&& is_unbroken(alt)
            &&& is_unbroken(url)
            &&& is_unbroken(caption)
            &&& figure_of(md_image(alt, url)) is None
        }),
{
    let body = line_body(line);
    let t = trim(body);
    assert(is_unbroken(body));
    lemma_trim_is_part(body);
    let (i, j) = choose|i: int, j: int|
        0 <= i <= j <= body.len() && t == #[trigger] body.subrange(i, j);
    assert forall|k: int| 0 <= k < t.len() implies #[trigger] t[k] != '\n' by {
        assert(t[k] == body[i + k]);
    }
    let e = find_pair(t, 0, ']', '(')->0;
    lemma_find_pair(t, 0, ']', '(');
    let inside = t.subrange(e + 2, t.len() - 1);
    let sp = find_space(inside, 0)->0;
    lemma_find_space(inside, 0);
    let url = inside.take(sp);
    let alt = t.subrange(2, e);
    let title = trim(inside.skip(sp));
    lemma_trim_is_part(inside.skip(sp));
    let (a, b) = choose|a: int, b: int|
        0 <= a <= b <= inside.skip(sp).len() && title == #[trigger] inside.skip(sp).subrange(a, b);
    assert(is_unbroken(inside));
    assert forall|k: int| 0 <= k < title.len() implies #[trigger] title[k] != '\n' by {
        assert(title[k] == inside[sp + a + k]);
    }
    let image = md_image(alt, url);
    lemma_nothing_to_trim(image);
    lemma_find_pair(image, 0, ']', '(');
    assert(e >= 2);
    assert forall|k: int| 0 <= k < e + 2 implies #[trigger] image[k] == t[k] by {}
    assert(image[e] == t[e] && image[e + 1] == t[e + 1]);
    assert(find_pair(image, 0, ']', '(') is Some);
    let f = find_pair(image, 0, ']', '(')->0;
    assert(f <= e);
    if f < e {
        assert(t[f] == image[f] && t[f + 1] == image[f + 1]);
    }
    assert(image.subrange(e + 2, image.len() - 1) =~= url);
    lemma_find_space(url, 0);
    if let Some(k) = find_space(url, 0) {
        assert(url[k] == inside[k]);
    }
}

proof fn lemma_break_is_line(line: Seq<char>)
    requires
        is_piece(line),
    ensures
        is_piece(line_break(line)),
        line_break(line).last() == '\n',
        line_body(line_break(line)) == Seq::<char>::empty(),
        line_break(line) == seq!['\n'] || line_break(line) == seq!['\r', '\n'],
        line_ending(line).len() > 0 ==> line.last() == '\n',
        line_ending(line).len() == 0 ==> line.last() != '\n',
        line_ending(line).len() > 0 ==> line_ending(line) == line_break(line),
        has_no_figure(line_break(line)),
{
    let end = line_ending(line);
    let brk = line_break(line);
    if end.len() > 0 {
        if end.len() == 2 {
            assert(end =~= seq!['\r', '\n']);
        } else {
            assert(end =~= seq!['\n']);
        }
    }
    assert(line_body(brk) =~= seq![]);
    let empty = Seq::<char>::empty();
    assert(trim(empty) =~= empty);
    lemma_no_figure_in_line(brk);
}

proof fn lemma_line_with_break(text: Seq<char>, brk: Seq<char>)
    requires
        text.len() > 0,
        is_unbroken(text),
        text.last() != '\r',
        brk == seq!['\n'] || brk == seq!['\r', '\n'],
        figure_of(text) is None,
    ensures
        has_no_figure(text + brk),
        ends_line(text + brk),
{
    let line = text + brk;
    assert(is_piece(line)) by {
        assert forall|i: int| 0 <= i < line.len() - 1 implies #[trigger] line[i] != '\n' by {
            if i < text.len() {
                assert(line[i] == text[i]);
            }
        }
    }
    assert(line_body(line) =~= text);
    lemma_no_figure_in_line(line);
}

proof fn lemma_md_line_holds_no_figure(line: Seq<char>)
    requires
        is_piece(line),
    ensures
        has_no_figure(md_line(line)),
        line.last() == '\n' ==> ends_line(md_line(line)),
{
    match figure_of(line_body(line)) {
        None => {
            lemma_no_figure_in_line(line);
        },
        Some((alt, url, caption)) => {
            let brk = line_break(line);
            let end = line_ending(line);
            let image = md_image(alt, url);
            let note = md_caption(caption);
            lemma_figure_parts(line);
            lemma_break_is_line(line);
            lemma_stars_unbroken(caption);
            lemma_line_with_break(image, brk);
            lemma_no_figure_in_both(image + brk, brk);
            lemma_nothing_to_trim(note);
            assert(figure_of(note) is None);
            if end.len() > 0 {
                lemma_line_with_break(note, brk);
            } else {
                assert(note + end =~= note);
                assert(line_body(note) =~= note);
                lemma_no_figure_in_line(note);
            }
            lemma_no_figure_in_both(image + brk + brk, note + end);
            assert(md_line(line) =~= image + brk + brk + (note + end));
        },
    }
}

proof fn lemma_html_line_holds_no_figure(line: Seq<char>)
    requires
        is_piece(line),
    ensures
        has_no_figure(html_line(line)),
        line.last() == '\n' ==> ends_line(html_line(line)),
{
    match figure_of(line_body(line)) {
        None => {
            lemma_no_figure_in_line(line);
        },
        Some((alt, url, caption)) => {
            let brk = line_break(line);
            let figure = html_figure(alt, url, caption);
            lemma_figure_parts(line);
            lemma_break_is_line(line);
            lemma_html_unbroken(alt);
            lemma_html_unbroken(url);
            lemma_html_unbroken(caption);
            reveal_strlit("<figure><img src=\"");
            reveal_strlit("\" alt=\"");
            reveal_strlit("\"><figcaption>");
            reveal_strlit("</figcaption></figure>");
            assert(is_unbroken(figure));
            lemma_nothing_to_trim(figure);
            assert(figure_of(figure) is None);
            lemma_line_with_break(figure, brk);
            lemma_no_figure_in_both(brk, figure + brk);
            lemma_no_figure_in_both(brk + (figure + brk), brk);
            assert(html_line(line) =~= brk + (figure + brk) + brk);
        },
    }
}

proof fn lemma_md_lines_hold_no_figure(ls: Seq<Seq<char>>, n: int)
    requires
        0 <= n <= ls.len(),
        forall|i: int| 0 <= i < ls.len() ==> is_piece(#[trigger] ls[i]),
        forall|i: int| 0 <= i < ls.len() - 1 ==> (#[trigger] ls[i]).last() == '\n',
    ensures
        has_no_figure(ls.map_values(|l: Seq<char>| md_line(l)).take(n).flatten()),
        n < ls.len() ==> ends_line(ls.map_values(|l: Seq<char>| md_line(l)).take(n).flatten()),
        has_no_figure(ls.map_values(|l: Seq<char>| html_line(l)).take(n).flatten()),
        n < ls.len() ==> ends_line(ls.map_values(|l: Seq<char>| html_line(l)).take(n).flatten()),
    decreases n,
{
    let md = ls.map_values(|l: Seq<char>| md_line(l));
    let html = ls.map_values(|l: Seq<char>| html_line(l));
    if n == 0 {
        assert(md.take(0).flatten() =~= seq![]);
        assert(html.take(0).flatten() =~= seq![]);
    } else {
        lemma_md_lines_hold_no_figure(ls, n - 1);
        let line = ls[n - 1];
        lemma_flatten_take(md, n - 1);
        lemma_flatten_take(html, n - 1);
        lemma_md_line_holds_no_figure(line);
        lemma_html_line_holds_no_figure(line);
        lemma_no_figure_in_both(md.take(n - 1).flatten(), md_line(line));
        lemma_no_figure_in_both(html.take(n - 1).flatten(), html_line(line));
    }
}

/// No line of an expanded text is a figure any more.
pub proof fn lemma_expanded_text_has_no_figure(content: Seq<char>)
    ensures
        has_no_figure(figures_as_md(content)),
        has_no_figure(figures_as_html(content)),
{
    let ls = pieces(content);
    let md = ls.map_values(|l: Seq<char>| md_line(l));
    let html = ls.map_values(|l: Seq<char>| html_line(l));
    lemma_pieces_are_lines(content);
    lemma_md_lines_hold_no_figure(ls, ls.len() as int);
    assert(md.take(ls.len() as int) =~= md);
    assert(html.take(ls.len() as int) =~= html);
}

/// Expanding the figures of a text a second time changes nothing.
pub proof fn lemma_expanding_twice(content: Seq<char>)
    ensures
        figures_as_md(figures_as_md(content)) == figures_as_md(content),
        figures_as_html(figures_as_html(content)) == figures_as_html(content),
{
    lemma_expanded_text_has_no_figure(content);
    lemma_text_without_figures(figures_as_md(content));
    lemma_text_without_figures(figures_as_html(content));
}

/// A text stays as it is, for the viewer and for the book, exactly where none of its lines is a
/// figure.
pub proof fn lemma_only_figures_change(content: Seq<char>)
    ensures
        figures_as_md(content) == content <==> has_no_figure(content),
        figures_as_html(content) == content <==> has_no_figure(content),
{
    lemma_expanded_text_has_no_figure(content);
    if has_no_figure(content) {
        lemma_text_without_figures(content);
    }
}

/// Escaping goes piece by piece.
pub proof fn lemma_escaping_both(a: Seq<char>, b: Seq<char>)
    ensures
        html_escaped(a + b) == html_escaped(a) + html_escaped(b),
    decreases b.len(),
{
    if b.len() == 0 {
        assert(a + b =~= a);
        assert(html_escaped(a) + html_escaped(b) =~= html_escaped(a));
    } else {
        lemma_escaping_both(a, b.drop_last());
        assert((a + b).drop_last() =~= a + b.drop_last());
        assert(html_escaped(a + b) =~= html_escaped(a) + html_escaped(b));
    }
}

/// `s` with every occurrence of `word` replaced by `c`, from left to right.
pub open spec fn replaced(s: Seq<char>, word: Seq<char>, c: char) -> Seq<char>
    decreases s.len(),
{
    if s.len() == 0 {
        seq![]
    } else if word.len() > 0 && word.is_prefix_of(s) {
        seq![c] + replaced(s.skip(word.len() as int), word, c)
    } else {
        seq![s[0]] + replaced(s.skip(1), word, c)
    }
}

/// HTML text as the text that it shows: the references to special characters are replaced by
/// these, the one to `&` last.
pub open spec fn unescaped(s: Seq<char>) -> Seq<char> {
    let s = replaced(s, "&lt;"@, '<');
    let s = replaced(s, "&gt;"@, '>');
    let s = replaced(s, "&quot;"@, '"');
    let s = replaced(s, "&#39;"@, '\'');
    replaced(s, "&amp;"@, '&')
}

/// The place of a special character in the order in which references are replaced.
spec fn rank(c: char) -> int {
    if c == '<' {
        0
    } else if c == '>' {
        1
    } else if c == '"' {
        2
    } else if c == '\'' {
        3
    } else {
        4
    }
}

/// `s` with the special characters escaped that are replaced at the step `k` or behind it.
spec fn partly_escaped(s: Seq<char>, k: int) -> Seq<char>
    decreases s.len(),
{
    if s.len() == 0 {
        seq![]
    } else {
        (if rank(s[0]) < k {
            seq![s[0]]
        } else {
            html_char(s[0])
        }) + partly_escaped(s.skip(1), k)
    }
}

proof fn lemma_escaping_from_the_front(s: Seq<char>)
    ensures
        html_escaped(s) == partly_escaped(s, 0),
    decreases s.len(),
{
    if s.len() > 0 {
        let first = seq![s[0]];
        lemma_escaping_from_the_front(s.skip(1));
        lemma_escaping_both(first, s.skip(1));
        assert(first + s.skip(1) =~= s);
        assert(first.drop_last() =~= seq![]);
        assert(html_escaped(first.drop_last()) =~= seq![]);
        assert(html_escaped(first) =~= html_char(s[0]));
    }
}

proof fn lemma_skipping_over(t: Seq<char>, s: Seq<char>, word: Seq<char>, c: char)
    requires
        word.len() >= 2,
        word[0] == '&',
        t.len() > 0,
        t[0] == '&' ==> t.len() >= 2 && t[1] != word[1],
        forall|i: int| 0 < i < t.len() ==> #[trigger] t[i] != '&',
    ensures
        replaced(t + s, word, c) == t + replaced(s, word, c),
    decreases t.len(),
{
    let all = t + s;
    assert(!word.is_prefix_of(all)) by {
        if word.is_prefix_of(all) {
            assert(word[0] == all[0]);
            assert(word[1] == all[1]);
        }
    }
    let rest = t.skip(1);
    assert(all.skip(1) =~= rest + s);
    if t.len() == 1 {
        assert(rest + s =~= s);
    } else {
        assert(rest[0] == t[1]);
        assert forall|i: int| 0 < i < rest.len() implies #[trigger] rest[i] != '&' by {
            assert(rest[i] == t[i + 1]);
        }
        lemma_skipping_over(rest, s, word, c);
    }
    assert(replaced(all, word, c) =~= t + replaced(s, word, c));
}

proof fn lemma_step_undone(s: Seq<char>, k: int, word: Seq<char>, c: char)
    requires
        0 <= k <= 4,
        rank(c) == k,
        html_char(c) == word,
        word.len() >= 2,
    ensures
        replaced(partly_escaped(s, k), word, c) == partly_escaped(s, k + 1),
    decreases s.len(),
{
    reveal_strlit("&amp;");
    reveal_strlit("&lt;");
    reveal_strlit("&gt;");
    reveal_strlit("&quot;");
    reveal_strlit("&#39;");
    if s.len() > 0 {
        let d = s[0];
        let rest = s.skip(1);
        let tail = partly_escaped(rest, k);
        let all = partly_escaped(s, k);
        lemma_step_undone(rest, k, word, c);
        if d == c {
            assert(all =~= word + tail);
            assert(word.is_prefix_of(all)) by {
                assert(all.subrange(0, word.len() as int) =~= word);
            }
            assert(all.skip(word.len() as int) =~= tail);
            assert(replaced(all, word, c) =~= seq![c] + replaced(tail, word, c));
        } else if rank(d) < k {
            let t = seq![d];
            lemma_skipping_over(t, tail, word, c);
        } else {
            let t = html_char(d);
            lemma_skipping_over(t, tail, word, c);
        }
    }
}

proof fn lemma_nothing_escaped(s: Seq<char>)
    ensures
        partly_escaped(s, 5) == s,
    decreases s.len(),
{
    if s.len() > 0 {
        lemma_nothing_escaped(s.skip(1));
        assert(seq![s[0]] + s.skip(1) =~= s);
    } else {
        assert(s =~= seq![]);
    }
}

/// Escaping can be undone.
pub proof fn lemma_escaping_can_be_undone(s: Seq<char>)
    ensures
        unescaped(html_escaped(s)) == s,
{
    reveal_strlit("&amp;");
    reveal_strlit("&lt;");
    reveal_strlit("&gt;");
    reveal_strlit("&quot;");
    reveal_strlit("&#39;");
    lemma_escaping_from_the_front(s);
    lemma_step_undone(s, 0, "&lt;"@, '<');
    lemma_step_undone(s, 1, "&gt;"@, '>');
    lemma_step_undone(s, 2, "&quot;"@, '"');
    lemma_step_undone(s, 3, "&#39;"@, '\'');
    lemma_step_undone(s, 4, "&amp;"@, '&');
    lemma_nothing_escaped(s);
}

/// Different texts have different HTML.
pub proof fn lemma_escaped_texts_differ(a: Seq<char>, b: Seq<char>)
    requires
        a != b,
    ensures
        html_escaped(a) != html_escaped(b),
{
    lemma_escaping_can_be_undone(a);
    lemma_escaping_can_be_undone(b);
}

} // verus!
