//! Which lines are figures, and what becomes of them.
use crate::documents::{
    are_shown_lines, as_written, figure_in, figure_text, is_shown_figure, is_shown_line,
    is_shown_text, is_target_of,
};
use crate::figures::{
    closes_in_alt, closes_in_title, closes_in_url, figure_of, figures_as_html, figures_as_md,
    html_escaped, html_line, is_closed_in, is_escaped, line_break, md_line, open_brackets,
    stars_escaped, title_ends_at,
};
use crate::image_laws::{lemma_filled_both, lemma_uris_of_both};
use crate::images::{
    filled, inline_parts, is_file_url_of, is_local, is_resolved, lemma_inline_progress, line_parts,
    parts_of, parts_of_lines, spaced_title, uris, Part,
};
use crate::lines::{
    ends_line, is_piece, lemma_one_piece, lemma_pieces_of_both, line_body, line_ending, pieces,
};
use crate::text::{
    find_pair, find_space, is_space, lemma_find_pair, lemma_find_space, lemma_nothing_to_trim, trim,
    trim_start,
};
use crate::text_laws::{is_blank, lemma_line_endings, lemma_parts_of_trimming, lemma_trimming};
use crate::uri_laws::{
    has_no_image, is_no_definition, lemma_filling, lemma_image_in_text, lemma_lines_with_images,
    lemma_text_behind_images, lemma_urls_and_titles,
};
use vstd::prelude::*;

verus! {

/// The text of an image with a title: `![alt](url "caption")`, with whitespace `a` before the title
/// and `b` behind it.
pub open spec fn titled_image(
    alt: Seq<char>,
    url: Seq<char>,
    a: Seq<char>,
    quote: char,
    caption: Seq<char>,
    b: Seq<char>,
) -> Seq<char> {
    seq!['!', '['] + alt + seq![']', '('] + url + a + seq![quote] + caption + seq![quote] + b + seq![
        ')',
    ]
}

proof fn lemma_no_brackets(s: Seq<char>, open: char, close: char, n: int)
    requires
        0 <= n <= s.len(),
        !s.contains(open),
        !s.contains(close),
    ensures
        open_brackets(s, open, close, n) == 0,
    decreases n,
{
    if n > 0 {
        lemma_no_brackets(s, open, close, n - 1);
        assert(s.contains(s[n - 1]));
    }
}

/// A line that looks like an image with a title is a figure exactly where the image is closed
/// neither in its alternative text, nor in its URL, nor in its title.
#[verifier::rlimit(40)]
pub proof fn lemma_what_is_a_figure(
    before: Seq<char>,
    alt: Seq<char>,
    url: Seq<char>,
    a: Seq<char>,
    quote: char,
    caption: Seq<char>,
    b: Seq<char>,
    behind: Seq<char>,
)
    requires
        is_blank(before),
        is_blank(a),
        is_blank(b),
        is_blank(behind),
        a.len() > 0,
        quote == '"' || quote == '\'',
        opens_no_target(alt),
        url.len() > 0,
        forall|i: int| 0 <= i < url.len() ==> !is_space(#[trigger] url[i]),
    ensures
        ({
            let line = before + titled_image(alt, url, a, quote, caption, b) + behind;
            let closes = is_closed_in(alt, '[', ']') || is_closed_in(url, '(', ')')
                || closes_in_title(seq![quote] + caption + seq![quote]);
            &&& !closes ==> figure_of(line) == Some((alt, url, caption))
            &&& closes ==> figure_of(line) is None
        }),
{
    let t = titled_image(alt, url, a, quote, caption, b);
    let title = seq![quote] + caption + seq![quote];
    let n = t.len() as int;
    assert(t[0] == '!' && t[1] == '[' && t[n - 1] == ')');
    lemma_trimming(before, t, behind);
    assert(t =~= seq!['!', '['] + alt + seq![']', '('] + (url + a + (title + b)) + seq![')']);
    lemma_parts_found(alt, url, a, title + b);
    assert(a + (title + b) =~= a + title + b);
    assert(title[0] == quote && title.last() == quote);
    lemma_trimming(a, title, b);
    assert(title.subrange(1, title.len() - 1) =~= caption);
}

proof fn lemma_counted_before(s: Seq<char>, c: char, open: char, close: char, n: int)
    requires
        0 <= n <= s.len(),
    ensures
        open_brackets(s.push(c), open, close, n) == open_brackets(s, open, close, n),
    decreases n,
{
    if n > 0 {
        lemma_counted_before(s, c, open, close, n - 1);
        assert(s.push(c)[n - 1] == s[n - 1]);
        assert(n > 1 ==> s.push(c)[n - 2] == s[n - 2]);
    }
}

/// Brackets open and close each other one by one, unless a backslash stands before them, and one
/// that closes while none is open closes what was opened before.
pub proof fn lemma_brackets(s: Seq<char>, c: char, open: char, close: char)
    requires
        open != close,
    ensures
        ({
            let n = s.len() as int;
            let now = open_brackets(s, open, close, n);
            let next = open_brackets(s.push(c), open, close, n + 1);
            let escaped = n > 0 && s[n - 1] == '\\';
            &&& c == open && !escaped ==> next == now + 1
            &&& c == close && !escaped ==> next == now - 1
            &&& c != open && c != close || escaped ==> next == now
            &&& is_closed_in(s.push(c), open, close) <==> is_closed_in(s, open, close) || next < 0
        }),
        open_brackets(seq![], open, close, 0) == 0,
        !is_closed_in(seq![], open, close),
{
    let n = s.len() as int;
    let more = s.push(c);
    lemma_counted_before(s, c, open, close, n);
    assert(more[n] == c);
    assert(n > 0 ==> more[n - 1] == s[n - 1]);
    if is_closed_in(s, open, close) {
        let m = choose|m: int| 0 < m <= s.len() && #[trigger] open_brackets(s, open, close, m) < 0;
        lemma_counted_before(s, c, open, close, m);
        assert(open_brackets(more, open, close, m) < 0);
    }
    if is_closed_in(more, open, close) {
        let m = choose|m: int|
            0 < m <= more.len() && #[trigger] open_brackets(more, open, close, m) < 0;
        if m <= n {
            lemma_counted_before(s, c, open, close, m);
            assert(open_brackets(s, open, close, m) < 0);
        }
    }
}

/// A title is closed in its caption exactly where a quote of its kind, without a backslash before
/// it, stands before a closing parenthesis, with whitespace between them at most.
#[verifier::rlimit(40)]
pub proof fn lemma_quotes(
    quote: char,
    x: Seq<char>,
    space: Seq<char>,
    y: Seq<char>,
)
    requires
        quote == '"' || quote == '\'',
        is_blank(space),
    ensures
        ({
            let caption = x + seq![quote] + space + seq![')'] + y;
            let title = seq![quote] + caption + seq![quote];
            &&& (x.len() == 0 || x.last() != '\\') ==> closes_in_title(title)
            &&& x.len() > 0 && x.last() == '\\' && !x.contains(quote) && !y.contains(quote)
                ==> !closes_in_title(title)
        }),
{
    let caption = x + seq![quote] + space + seq![')'] + y;
    let title = seq![quote] + caption + seq![quote];
    let k = 1 + x.len() as int;
    assert(title[0] == quote && title[k] == quote);
    assert(x.len() > 0 ==> title[k - 1] == x.last());
    let core = seq![')'] + y + seq![quote];
    assert(title.skip(k + 1) =~= space + core);
    assert(core[0] == ')');
    lemma_start_behind_blank(space, core);
    if x.len() == 0 || x.last() != '\\' {
        assert(title_ends_at(title, k));
    }
    if x.len() > 0 && x.last() == '\\' && !x.contains(quote) && !y.contains(quote) {
        if closes_in_title(title) {
            let m = choose|m: int| 0 < m < title.len() - 1 && #[trigger] title_ends_at(title, m);
            assert(title[m] == caption[m - 1]);
            if m < k {
                assert(x.contains(x[m - 1]));
            } else if k < m <= k + space.len() {
                assert(title[m] == space[m - k - 1]);
                assert(is_space(space[m - k - 1]));
            } else if m > k + space.len() + 1 {
                let at = m - k - space.len() - 2;
                assert(title[m] == y[at]);
                assert(y.contains(y[at]));
            }
        }
    }
}

proof fn lemma_no_closing(s: Seq<char>, open: char, close: char)
    requires
        !s.contains(open),
        !s.contains(close),
    ensures
        !is_closed_in(s, open, close),
{
    if is_closed_in(s, open, close) {
        let m = choose|m: int| 0 < m <= s.len() && #[trigger] open_brackets(s, open, close, m) < 0;
        lemma_no_brackets(s, open, close, m);
    }
}

/// Whether each quote in a caption stands before more text of it, and not before a parenthesis that
/// closes the image.
pub open spec fn quotes_stand_inside(caption: Seq<char>, quote: char) -> bool {
    forall|k: int|
        0 <= k < caption.len() && #[trigger] caption[k] == quote ==> {
            let rest = trim_start(caption.skip(k + 1));
            rest.len() > 0 && rest[0] != ')'
        }
}

proof fn lemma_title_stays_open(caption: Seq<char>, quote: char)
    requires
        quote == '"' || quote == '\'',
        quotes_stand_inside(caption, quote),
    ensures
        !closes_in_title(seq![quote] + caption + seq![quote]),
{
    let title = seq![quote] + caption + seq![quote];
    if closes_in_title(title) {
        let k = choose|k: int| 0 < k < title.len() - 1 && #[trigger] title_ends_at(title, k);
        assert(caption[k - 1] == title[k]);
        let inner = caption.skip(k);
        let rest = title.skip(k + 1);
        assert(rest =~= inner + seq![quote]);
        assert(caption.skip(k - 1 + 1) =~= inner);
        lemma_start_of_both(inner, seq![quote]);
    }
}

proof fn lemma_start_of_both(a: Seq<char>, b: Seq<char>)
    requires
        trim_start(a).len() > 0,
    ensures
        trim_start(a + b) == trim_start(a) + b,
    decreases a.len(),
{
    if a.len() > 0 && is_space(a[0]) {
        assert((a + b).skip(1) =~= a.skip(1) + b);
        lemma_start_of_both(a.skip(1), b);
    }
}

/// An image with a title that stands alone on its line is a figure with exactly its alternative
/// text, its URL and its title as the caption, whatever these are, as long as no bracket stands in
/// the alternative text, neither whitespace nor a parenthesis in the URL, and no quote in the title
/// before a closing parenthesis.
pub proof fn lemma_titled_images_are_figures(
    before: Seq<char>,
    alt: Seq<char>,
    url: Seq<char>,
    a: Seq<char>,
    quote: char,
    caption: Seq<char>,
    b: Seq<char>,
    behind: Seq<char>,
)
    requires
        is_blank(before),
        is_blank(a),
        is_blank(b),
        is_blank(behind),
        a.len() > 0,
        quote == '"' || quote == '\'',
        !alt.contains('['),
        !alt.contains(']'),
        url.len() > 0,
        forall|i: int| 0 <= i < url.len() ==> !is_space(#[trigger] url[i]),
        !url.contains('('),
        !url.contains(')'),
        !caption.contains(quote) || quotes_stand_inside(caption, quote),
    ensures
        figure_of(before + titled_image(alt, url, a, quote, caption, b) + behind) == Some(
            (alt, url, caption),
        ),
{
    lemma_no_closing(alt, '[', ']');
    lemma_no_closing(url, '(', ')');
    assert(quotes_stand_inside(caption, quote)) by {
        assert forall|k: int| 0 <= k < caption.len() && #[trigger] caption[k] == quote implies {
            let rest = trim_start(caption.skip(k + 1));
            rest.len() > 0 && rest[0] != ')'
        } by {
            assert(caption.contains(caption[k]));
        }
    }
    lemma_title_stays_open(caption, quote);
    lemma_no_target(alt);
    lemma_what_is_a_figure(before, alt, url, a, quote, caption, b, behind);
}

proof fn lemma_brackets_count(
    x: Seq<char>,
    y: Seq<char>,
    z: Seq<char>,
    open: char,
    close: char,
    n: int,
)
    requires
        open != close,
        open != '\\',
        close != '\\',
        !x.contains(open) && !x.contains(close) && !x.contains('\\'),
        !y.contains(open) && !y.contains(close) && !y.contains('\\'),
        !z.contains(open) && !z.contains(close) && !z.contains('\\'),
        0 <= n <= x.len() + y.len() + z.len() + 2,
    ensures
        open_brackets(x + seq![open] + y + seq![close] + z, open, close, n) == if x.len() < n <= (
        x.len() + 1 + y.len()) {
            1int
        } else {
            0
        },
    decreases n,
{
    let s = x + seq![open] + y + seq![close] + z;
    if n > 0 {
        lemma_brackets_count(x, y, z, open, close, n - 1);
        let i = n - 1;
        assert(!is_escaped(s, i)) by {
            if i > 0 {
                let c = s[i - 1];
                if i - 1 < x.len() {
                    assert(x.contains(x[i - 1]));
                } else if x.len() < i - 1 < x.len() + 1 + y.len() {
                    assert(y.contains(y[i - 2 - x.len()]));
                } else if i - 1 > x.len() + 1 + y.len() {
                    assert(z.contains(z[i - 3 - x.len() - y.len()]));
                }
            }
        }
        if i < x.len() {
            assert(x.contains(x[i]));
        } else if x.len() < i < x.len() + 1 + y.len() {
            assert(y.contains(y[i - 1 - x.len()]));
        } else if i > x.len() + 1 + y.len() {
            assert(z.contains(z[i - 2 - x.len() - y.len()]));
        }
    }
}

/// Parentheses in a URL that close each other make no difference.
#[verifier::rlimit(40)]
pub proof fn lemma_parentheses_in_urls(
    alt: Seq<char>,
    x: Seq<char>,
    y: Seq<char>,
    z: Seq<char>,
    quote: char,
    caption: Seq<char>,
)
    requires
        quote == '"' || quote == '\'',
        !alt.contains('['),
        !alt.contains(']'),
        !x.contains('(') && !x.contains(')') && !x.contains('\\'),
        !y.contains('(') && !y.contains(')') && !y.contains('\\'),
        !z.contains('(') && !z.contains(')') && !z.contains('\\'),
        forall|i: int| 0 <= i < x.len() ==> !is_space(#[trigger] x[i]),
        forall|i: int| 0 <= i < y.len() ==> !is_space(#[trigger] y[i]),
        forall|i: int| 0 <= i < z.len() ==> !is_space(#[trigger] z[i]),
        !caption.contains(quote),
    ensures
        ({
            let url = x + seq!['('] + y + seq![')'] + z;
            figure_of(titled_image(alt, url, seq![' '], quote, caption, seq![])) == Some(
                (alt, url, caption),
            )
        }),
{
    let none = Seq::<char>::empty();
    let url = x + seq!['('] + y + seq![')'] + z;
    assert forall|i: int| 0 <= i < url.len() implies !is_space(#[trigger] url[i]) by {
        if i < x.len() {
            assert(url[i] == x[i]);
        } else if x.len() < i < x.len() + 1 + y.len() {
            assert(url[i] == y[i - 1 - x.len()]);
        } else if i > x.len() + 1 + y.len() {
            assert(url[i] == z[i - 2 - x.len() - y.len()]);
        }
    }
    assert(!closes_in_url(url)) by {
        if closes_in_url(url) {
            let m = choose|m: int| 0 < m <= url.len() && #[trigger] open_brackets(url, '(', ')', m) < 0;
            lemma_brackets_count(x, y, z, '(', ')', m);
        }
    }
    assert(is_blank(seq![' '])) by {
        assert(is_space(' '));
    }
    lemma_no_closing(alt, '[', ']');
    assert(quotes_stand_inside(caption, quote)) by {
        assert forall|k: int| 0 <= k < caption.len() && #[trigger] caption[k] == quote implies {
            let rest = trim_start(caption.skip(k + 1));
            rest.len() > 0 && rest[0] != ')'
        } by {
            assert(caption.contains(caption[k]));
        }
    }
    lemma_title_stays_open(caption, quote);
    lemma_no_target(alt);
    lemma_what_is_a_figure(none, alt, url, seq![' '], quote, caption, none, none);
    let t = titled_image(alt, url, seq![' '], quote, caption, none);
    assert(none + t + none =~= t);
}

/// An image without a title is no figure.
pub proof fn lemma_images_without_title(
    before: Seq<char>,
    alt: Seq<char>,
    url: Seq<char>,
    behind: Seq<char>,
)
    requires
        is_blank(before),
        is_blank(behind),
        !alt.contains(']'),
        forall|i: int| 0 <= i < url.len() ==> !is_space(#[trigger] url[i]),
    ensures
        figure_of(before + (seq!['!', '['] + alt + seq![']', '('] + url + seq![')']) + behind) is None,
{
    let t = seq!['!', '['] + alt + seq![']', '('] + url + seq![')'];
    let e = 2 + alt.len() as int;
    assert(t[0] == '!' && t[1] == '[' && t.last() == ')');
    lemma_trimming(before, t, behind);
    lemma_find_pair(t, 0, ']', '(');
    assert(t[e] == ']' && t[e + 1] == '(');
    assert forall|k: int| 0 <= k < e implies #[trigger] t[k] != ']' by {
        if k >= 2 {
            assert(t[k] == alt[k - 2]);
            assert(alt.contains(alt[k - 2]));
        }
    }
    if let Some(f) = find_pair(t, 0, ']', '(') {
        assert(t[f] == ']');
        assert(f == e) by {
            if f > e {
                assert(t[e + 1] == '(');
            }
        }
        let inside = t.subrange(e + 2, t.len() - 1);
        assert(inside =~= url);
        lemma_find_space(inside, 0);
        if let Some(k) = find_space(inside, 0) {
            assert(inside[k] == url[k]);
        }
    }
}

/// A figure is an image with a title that stands alone on its line.
#[verifier::rlimit(40)]
pub proof fn lemma_figures_are_titled_images(line: Seq<char>)
    requires
        figure_of(line) is Some,
    ensures
        ({
            let (alt, url, caption) = figure_of(line)->0;
            &&& url.len() > 0
            &&& forall|i: int| 0 <= i < url.len() ==> !is_space(#[trigger] url[i])
            &&& exists|
                before: Seq<char>,
                a: Seq<char>,
                quote: char,
                b: Seq<char>,
                behind: Seq<char>,
            |
                is_blank(before) && is_blank(a) && is_blank(b) && is_blank(behind) && a.len() > 0 && (
                quote == '"' || quote == '\'') && line == #[trigger] (before + titled_image(
                    alt,
                    url,
                    a,
                    quote,
                    caption,
                    b,
                ) + behind)
        }),
{
    let (alt, url, caption) = figure_of(line)->0;
    let (before, behind) = lemma_parts_of_trimming(line);
    let t = trim(line);
    let n = t.len() as int;
    lemma_find_pair(t, 0, ']', '(');
    let e = find_pair(t, 0, ']', '(')->0;
    let inside = t.subrange(e + 2, n - 1);
    lemma_find_space(inside, 0);
    let sp = find_space(inside, 0)->0;
    let tail = inside.skip(sp);
    let (a, b) = lemma_parts_of_trimming(tail);
    let title = trim(tail);
    let quote = title[0];
    assert(e >= 2);
    assert(a.len() > 0) by {
        if a.len() == 0 {
            assert(tail[0] == title[0]);
            assert(tail[0] == inside[sp]);
        }
    }
    assert forall|i: int| 0 <= i < url.len() implies !is_space(#[trigger] url[i]) by {
        assert(url[i] == inside[i]);
    }
    assert(title =~= seq![quote] + caption + seq![quote]);
    assert(inside =~= url + tail);
    assert(tail =~= a + title + b);
    assert(t =~= seq!['!', '['] + alt + seq![']', '('] + inside + seq![')']);
    assert(t =~= titled_image(alt, url, a, quote, caption, b));
    assert(line == before + titled_image(alt, url, a, quote, caption, b) + behind);
}

/// Whether no `](` stands in `alt`.
pub open spec fn opens_no_target(alt: Seq<char>) -> bool {
    forall|k: int| 0 <= k < alt.len() - 1 ==> !(#[trigger] alt[k] == ']' && alt[k + 1] == '(')
}

proof fn lemma_no_target(alt: Seq<char>)
    requires
        !alt.contains(']'),
    ensures
        opens_no_target(alt),
{
    assert forall|k: int| 0 <= k < alt.len() - 1 implies !(#[trigger] alt[k] == ']' && alt[k + 1]
        == '(') by {
        assert(alt.contains(alt[k]));
    }
}

#[verifier::rlimit(40)]
proof fn lemma_parts_found(
    alt: Seq<char>,
    url: Seq<char>,
    a: Seq<char>,
    rest: Seq<char>,
)
    requires
        is_blank(a),
        a.len() > 0,
        opens_no_target(alt),
        forall|i: int| 0 <= i < url.len() ==> !is_space(#[trigger] url[i]),
    ensures
        ({
            let t = seq!['!', '['] + alt + seq![']', '('] + (url + a + rest) + seq![')'];
            let e = 2 + alt.len() as int;
            let inside = t.subrange(e + 2, t.len() - 1);
            &&& find_pair(t, 0, ']', '(') == Some(e)
            &&& t.subrange(2, e) == alt
            &&& find_space(inside, 0) == Some(url.len() as int)
            &&& inside.take(url.len() as int) == url
            &&& inside.skip(url.len() as int) == a + rest
        }),
{
    let t = seq!['!', '['] + alt + seq![']', '('] + (url + a + rest) + seq![')'];
    let e = 2 + alt.len() as int;
    lemma_find_pair(t, 0, ']', '(');
    assert(t[e] == ']' && t[e + 1] == '(');
    assert(find_pair(t, 0, ']', '(') == Some(e)) by {
        match find_pair(t, 0, ']', '(') {
            Some(f) => {
                assert(t[f] == ']' && t[f + 1] == '(');
                if f < e {
                    assert(f >= 2);
                    assert(t[f] == alt[f - 2]);
                    assert(f + 1 < e);
                    assert(t[f + 1] == alt[f - 1]);
                } else if f > e {
                    assert(t[e + 1] == '(');
                }
            },
            None => {
                assert(t[e + 1] == '(');
            },
        }
    }
    assert(t.subrange(2, e) =~= alt);
    let inside = t.subrange(e + 2, t.len() - 1);
    assert(inside =~= url + a + rest);
    let sp = url.len() as int;
    lemma_find_space(inside, 0);
    assert(inside[sp] == a[0]);
    assert(is_space(a[0]));
    assert forall|k: int| 0 <= k < sp implies !is_space(#[trigger] inside[k]) by {
        assert(inside[k] == url[k]);
    }
    assert(find_space(inside, 0) == Some(sp));
    assert(inside.take(sp) =~= url);
    assert(inside.skip(sp) =~= a + rest);
}

proof fn lemma_trimmed_behind(a: Seq<char>, rest: Seq<char>) -> (y: Seq<char>)
    requires
        is_blank(a),
        rest.len() > 0,
        !is_space(rest[0]),
    ensures
        is_blank(y),
        rest == trim(a + rest) + y,
{
    let s = a + rest;
    let (x, y) = lemma_parts_of_trimming(s);
    let t = trim(s);
    let m = a.len() as int;
    assert(s[m] == rest[0]);
    if x.len() > m {
        assert(s[m] == x[m]);
        assert(is_space(x[m]));
    }
    if x.len() < m {
        let c = x.len() as int;
        assert(s[c] == a[c]);
        assert(is_space(a[c]));
        if t.len() > 0 {
            assert(s[c] == t[0]);
        } else {
            assert(s[m] == y[m - c]);
            assert(is_space(y[m - c]));
        }
    }
    assert(rest =~= s.skip(m));
    assert(s.skip(m) =~= t + y);
    y
}

#[verifier::rlimit(40)]
proof fn lemma_title_is_closed(
    found: Seq<char>,
    quote: char,
    caption: Seq<char>,
    b: Seq<char>,
    more: Seq<char>,
    y: Seq<char>,
)
    requires
        is_blank(b),
        is_blank(y),
        caption.len() > 0 ==> caption.last() != '\\',
        quote == '"' || quote == '\'',
        seq![quote] + caption + seq![quote] + b + seq![')'] + more == found + y,
    ensures
        found.len() > 1,
        found[0] == quote,
        closes_in_title(found),
{
    let all = seq![quote] + caption + seq![quote] + b + seq![')'] + more;
    let k = 1 + caption.len() as int;
    let close = k + 1 + b.len();
    assert(all[close] == ')');
    assert(all.len() == found.len() + y.len());
    if found.len() <= close {
        assert((found + y)[close] == y[close - found.len()]);
        assert(all[close] == y[close - found.len()]);
        assert(is_space(y[close - found.len()]));
    }
    assert forall|i: int| 0 <= i < found.len() implies #[trigger] found[i] == all[i] by {
        assert((found + y)[i] == found[i]);
    }
    assert(found[0] == quote && found[k] == quote && found[close] == ')');
    assert(found[k - 1] == all[k - 1]);
    assert(!is_escaped(found, k));
    let after = found.skip(k + 1);
    let core = after.skip(b.len() as int);
    assert forall|i: int| 0 <= i < b.len() implies after[i] == b[i] by {
        assert(after[i] == found[k + 1 + i]);
        assert(all[k + 1 + i] == b[i]);
    }
    assert(after =~= b + core);
    assert(core[0] == found[close]);
    lemma_start_behind_blank(b, core);
    assert(title_ends_at(found, k));
}

/// A line on which anything but whitespace follows an image with a title is no figure.
#[verifier::rlimit(40)]
pub proof fn lemma_text_behind_an_image(
    alt: Seq<char>,
    url: Seq<char>,
    a: Seq<char>,
    quote: char,
    caption: Seq<char>,
    b: Seq<char>,
    more: Seq<char>,
)
    requires
        is_blank(a),
        is_blank(b),
        a.len() > 0,
        quote == '"' || quote == '\'',
        !alt.contains(']'),
        url.len() > 0,
        forall|i: int| 0 <= i < url.len() ==> !is_space(#[trigger] url[i]),
        caption.len() > 0 ==> caption.last() != '\\',
        more.len() > 0,
        !is_space(more.last()),
    ensures
        figure_of(titled_image(alt, url, a, quote, caption, b) + more) is None,
{
    let t = titled_image(alt, url, a, quote, caption, b) + more;
    assert(t[0] == '!' && t[1] == '[' && t.last() == more.last());
    lemma_nothing_to_trim(t);
    if more.last() == ')' {
        let inner = more.drop_last();
        let rest = seq![quote] + caption + seq![quote] + b + seq![')'] + inner;
        assert(t =~= seq!['!', '['] + alt + seq![']', '('] + (url + a + rest) + seq![')']);
        lemma_no_target(alt);
        lemma_parts_found(alt, url, a, rest);
        assert(rest[0] == quote);
        let y = lemma_trimmed_behind(a, rest);
        lemma_title_is_closed(trim(a + rest), quote, caption, b, inner, y);
    }
}

proof fn lemma_start_behind_blank(a: Seq<char>, s: Seq<char>)
    requires
        is_blank(a),
        s.len() > 0,
        !is_space(s[0]),
    ensures
        trim_start(a + s) == s,
    decreases a.len(),
{
    if a.len() == 0 {
        assert(a + s =~= s);
    } else {
        let rest = a.skip(1);
        assert(is_space(a[0]));
        assert forall|i: int| 0 <= i < rest.len() implies is_space(#[trigger] rest[i]) by {
            assert(rest[i] == a[i + 1]);
        }
        assert((a + s).skip(1) =~= rest + s);
        lemma_start_behind_blank(rest, s);
    }
}

/// A line on which the alternative text is closed and no URL follows is no figure, whatever comes
/// later.
pub proof fn lemma_text_before_an_image(alt: Seq<char>, more: Seq<char>)
    requires
        !alt.contains('['),
        !alt.contains(']'),
        alt.len() > 0 ==> alt.last() != '\\',
        more.len() > 0,
        more[0] != '(',
        !is_space(more.last()),
    ensures
        figure_of(seq!['!', '['] + alt + seq![']'] + more) is None,
{
    let t = seq!['!', '['] + alt + seq![']'] + more;
    let c = 2 + alt.len() as int;
    assert(t[0] == '!' && t[1] == '[' && t.last() == more.last());
    lemma_nothing_to_trim(t);
    lemma_find_pair(t, 0, ']', '(');
    if let Some(e) = find_pair(t, 0, ']', '(') {
        assert(t[c] == ']' && t[c + 1] == more[0]);
        assert(e > c) by {
            if e < c {
                assert(t[e] == ']');
                if e >= 2 {
                    assert(t[e] == alt[e - 2]);
                    assert(alt.contains(alt[e - 2]));
                }
            }
        }
        let whole = t.subrange(2, e);
        let m = alt.len() as int;
        assert(whole[m] == ']');
        assert(whole.take(m) =~= alt);
        lemma_no_brackets_before(whole, m, m);
        assert(m > 0 ==> whole[m - 1] == alt.last());
        assert(open_brackets(whole, '[', ']', m + 1) == -1);
        assert(closes_in_alt(whole));
    }
}

proof fn lemma_no_brackets_before(s: Seq<char>, m: int, n: int)
    requires
        0 <= n <= m <= s.len(),
        !s.take(m).contains('['),
        !s.take(m).contains(']'),
    ensures
        open_brackets(s, '[', ']', n) == 0,
    decreases n,
{
    if n > 0 {
        lemma_no_brackets_before(s, m, n - 1);
        assert(s.take(m)[n - 1] == s[n - 1]);
        assert(s.take(m).contains(s[n - 1]));
    }
}

/// Asterisks get a backslash before them, and nothing else changes.
pub proof fn lemma_asterisks(a: Seq<char>, c: char)
    ensures
        stars_escaped(seq![]) == Seq::<char>::empty(),
        stars_escaped(a.push('*')) == stars_escaped(a) + seq!['\\', '*'],
        c != '*' ==> stars_escaped(a.push(c)) == stars_escaped(a).push(c),
{
    assert(a.push('*').drop_last() =~= a);
    assert(a.push(c).drop_last() =~= a);
    if c != '*' {
        assert(stars_escaped(a) + seq![c] =~= stars_escaped(a).push(c));
    }
}

/// Five characters are written as references in HTML, and nothing else changes.
pub proof fn lemma_references(a: Seq<char>, c: char)
    ensures
        html_escaped(seq![]) == Seq::<char>::empty(),
        html_escaped(a.push('&')) == html_escaped(a) + seq!['&', 'a', 'm', 'p', ';'],
        html_escaped(a.push('<')) == html_escaped(a) + seq!['&', 'l', 't', ';'],
        html_escaped(a.push('>')) == html_escaped(a) + seq!['&', 'g', 't', ';'],
        html_escaped(a.push('"')) == html_escaped(a) + seq!['&', 'q', 'u', 'o', 't', ';'],
        html_escaped(a.push('\'')) == html_escaped(a) + seq!['&', '#', '3', '9', ';'],
        c != '&' && c != '<' && c != '>' && c != '"' && c != '\'' ==> html_escaped(a.push(c))
            == html_escaped(a).push(c),
{
    reveal_strlit("&amp;");
    reveal_strlit("&lt;");
    reveal_strlit("&gt;");
    reveal_strlit("&quot;");
    reveal_strlit("&#39;");
    assert(a.push('&').drop_last() =~= a);
    assert(a.push('<').drop_last() =~= a);
    assert(a.push('>').drop_last() =~= a);
    assert(a.push('"').drop_last() =~= a);
    assert(a.push('\'').drop_last() =~= a);
    assert(a.push(c).drop_last() =~= a);
    assert("&amp;"@ =~= seq!['&', 'a', 'm', 'p', ';']);
    assert("&lt;"@ =~= seq!['&', 'l', 't', ';']);
    assert("&gt;"@ =~= seq!['&', 'g', 't', ';']);
    assert("&quot;"@ =~= seq!['&', 'q', 'u', 'o', 't', ';']);
    assert("&#39;"@ =~= seq!['&', '#', '3', '9', ';']);
    assert(html_escaped(a) + seq![c] =~= html_escaped(a).push(c));
}

/// Figures are expanded line by line.
pub proof fn lemma_expanding_both(a: Seq<char>, b: Seq<char>)
    requires
        ends_line(a),
    ensures
        figures_as_md(a + b) == figures_as_md(a) + figures_as_md(b),
        figures_as_html(a + b) == figures_as_html(a) + figures_as_html(b),
{
    lemma_pieces_of_both(a, b);
    let md = |l: Seq<char>| md_line(l);
    let html = |l: Seq<char>| html_line(l);
    assert(pieces(a + b).map_values(md) =~= pieces(a).map_values(md) + pieces(b).map_values(md));
    assert(pieces(a + b).map_values(html) =~= pieces(a).map_values(html) + pieces(b).map_values(
        html,
    ));
    lemma_flatten_both(pieces(a).map_values(md), pieces(b).map_values(md));
    lemma_flatten_both(pieces(a).map_values(html), pieces(b).map_values(html));
}

proof fn lemma_flatten_both(a: Seq<Seq<char>>, b: Seq<Seq<char>>)
    ensures
        (a + b).flatten() == a.flatten() + b.flatten(),
    decreases b.len(),
{
    if b.len() == 0 {
        assert(a + b =~= a);
        assert(b.flatten() =~= seq![]);
        assert(a.flatten() + b.flatten() =~= a.flatten());
    } else {
        let front = b.drop_last();
        lemma_flatten_both(a, front);
        (a + front).lemma_flatten_push(b.last());
        front.lemma_flatten_push(b.last());
        assert((a + front).push(b.last()) =~= a + b);
        assert(front.push(b.last()) =~= b);
        assert((a + b).flatten() =~= a.flatten() + b.flatten());
    }
}

proof fn lemma_flatten_one(x: Seq<char>)
    ensures
        seq![x].flatten() == x,
{
    let none = Seq::<Seq<char>>::empty();
    none.lemma_flatten_push(x);
    assert(none.push(x) =~= seq![x]);
    assert(none.flatten() =~= seq![]);
    assert(none.flatten() + x =~= x);
}

/// A figure becomes the image, a blank line and the caption in italics for the viewer, and an HTML
/// figure between blank lines for the book. A line that is no figure stays as it is.
#[verifier::rlimit(40)]
pub proof fn lemma_expanding_a_line(body: Seq<char>, end: Seq<char>)
    requires
        body.len() + end.len() > 0,
        !body.contains('\n'),
        body.len() == 0 || body.last() != '\r',
        end == seq!['\n'] || end == seq!['\r', '\n'] || end == Seq::<char>::empty(),
    ensures
        figure_of(body) is None ==> figures_as_md(body + end) == body + end && figures_as_html(
            body + end,
        ) == body + end,
        figure_of(body) matches Some((alt, url, caption)) ==> {
            let brk = if end.len() == 0 {
                seq!['\n']
            } else {
                end
            };
            &&& figures_as_md(body + end) == (seq!['!', '['] + alt + seq![']', '('] + url + seq![
                ')',
            ]) + brk + brk + (seq!['*'] + stars_escaped(caption) + seq!['*']) + end
            &&& figures_as_html(body + end) == brk + ("<figure><img src=\""@ + html_escaped(url)
                + "\" alt=\""@ + html_escaped(alt) + "\"><figcaption>"@ + html_escaped(caption)
                + "</figcaption></figure>"@) + brk + brk
        },
{
    let line = body + end;
    assert forall|i: int| 0 <= i < body.len() implies #[trigger] body[i] != '\n' by {
        assert(body.contains(body[i]));
    }
    assert(is_piece(line)) by {
        assert forall|i: int| 0 <= i < line.len() - 1 implies #[trigger] line[i] != '\n' by {
            if i < body.len() {
                assert(line[i] == body[i]);
            }
        }
    }
    lemma_one_piece(line);
    lemma_line_endings(body);
    if end.len() == 0 {
        assert(line =~= body);
    }
    assert(line_body(line) == body && line_ending(line) == end);
    assert(pieces(line).map_values(|l: Seq<char>| md_line(l)) =~= seq![md_line(line)]);
    assert(pieces(line).map_values(|l: Seq<char>| html_line(l)) =~= seq![html_line(line)]);
    lemma_flatten_one(md_line(line));
    lemma_flatten_one(html_line(line));
}

/// What is shown of a document is shown of its lines, one by one.
pub proof fn lemma_shown_in_a_row(
    a: Seq<char>,
    b: Seq<char>,
    dir: Seq<char>,
    html: bool,
    out: Seq<char>,
)
    requires
        ends_line(a),
        is_shown_text(a + b, dir, html, out),
    ensures
        exists|out_a: Seq<char>, out_b: Seq<char>|
            is_shown_text(a, dir, html, out_a) && is_shown_text(b, dir, html, out_b) && out
                == #[trigger] (out_a + out_b),
{
    lemma_pieces_of_both(a, b);
    let ls = pieces(a + b);
    let outs = choose|outs: Seq<Seq<char>>|
        are_shown_lines(ls, dir, html, outs) && out == #[trigger] outs.flatten();
    let n = pieces(a).len() as int;
    let x = outs.take(n);
    let y = outs.skip(n);
    assert forall|i: int| 0 <= i < x.len() implies is_shown_line(
        pieces(a)[i],
        dir,
        html,
        #[trigger] x[i],
    ) by {
        assert(is_shown_line(ls[i], dir, html, outs[i]));
    }
    assert forall|i: int| 0 <= i < y.len() implies is_shown_line(
        pieces(b)[i],
        dir,
        html,
        #[trigger] y[i],
    ) by {
        assert(is_shown_line(ls[n + i], dir, html, outs[n + i]));
    }
    assert(are_shown_lines(pieces(a), dir, html, x));
    assert(are_shown_lines(pieces(b), dir, html, y));
    lemma_flatten_both(x, y);
    assert(x + y =~= outs);
    assert(is_shown_text(a, dir, html, x.flatten()));
    assert(is_shown_text(b, dir, html, y.flatten()));
    assert(out == x.flatten() + y.flatten());
}

proof fn lemma_shown_line_alone(line: Seq<char>, dir: Seq<char>, html: bool, out: Seq<char>)
    requires
        is_piece(line),
        is_shown_text(line, dir, html, out),
    ensures
        is_shown_line(line, dir, html, out),
{
    lemma_one_piece(line);
    let outs = choose|outs: Seq<Seq<char>>|
        are_shown_lines(pieces(line), dir, html, outs) && out == #[trigger] outs.flatten();
    assert(outs =~= seq![outs[0]]);
    lemma_flatten_one(outs[0]);
    assert(is_shown_line(pieces(line)[0], dir, html, outs[0]));
}

/// A line without images and definitions is shown as it is.
#[verifier::rlimit(40)]
pub proof fn lemma_plain_lines_are_shown(
    line: Seq<char>,
    dir: Seq<char>,
    html: bool,
    out: Seq<char>,
)
    requires
        is_piece(line),
        is_no_definition(line),
        has_no_image(line, 0, line.len() as int),
        is_shown_text(line, dir, html, out),
    ensures
        out == line,
{
    let none = Seq::<Seq<char>>::empty();
    lemma_shown_line_alone(line, dir, html, out);
    lemma_lines_with_images(line);
    lemma_text_behind_images(line, 0);
    assert(line.skip(0) =~= line);
    lemma_filling(line, line);
    assert(as_written(line) == line);
    assert(figure_in(line) is None) by {
        let body = line_body(line);
        if figure_of(body) is Some {
            lemma_figures_are_titled_images(body);
            let (alt, url, caption) = figure_of(body)->0;
            let (before, a, quote, b, behind) = choose|
                before: Seq<char>,
                a: Seq<char>,
                quote: char,
                b: Seq<char>,
                behind: Seq<char>,
            |
                is_blank(before) && is_blank(a) && is_blank(b) && is_blank(behind) && a.len() > 0 && (
                quote == '"' || quote == '\'') && body == #[trigger] (before + titled_image(
                    alt,
                    url,
                    a,
                    quote,
                    caption,
                    b,
                ) + behind);
            let k = before.len() as int;
            let image = titled_image(alt, url, a, quote, caption, b);
            assert(image[0] == '!' && image[1] == '[');
            assert(body[k] == image[0] && body[k + 1] == image[1]);
            assert(line[k] == body[k] && line[k + 1] == body[k + 1]);
        }
    }
    lemma_one_piece(line);
    assert(seq![line].drop_last() =~= seq![]);
    assert(parts_of_lines(seq![line].drop_last()) =~= seq![]);
    assert(parts_of(line) =~= line_parts(line));
    let paths = uris(parts_of(line));
    let urls = choose|urls: Seq<Seq<char>>|
        urls.len() == paths.len() && (forall|k: int|
            0 <= k < urls.len() ==> is_file_url_of(paths[k], dir, #[trigger] urls[k])) && out
            == #[trigger] filled(parts_of(line), urls);
    assert(urls =~= none);
}

#[verifier::rlimit(40)]
proof fn lemma_image_as_written(
    head: Seq<char>,
    alt: Seq<char>,
    url: Seq<char>,
    a: Seq<char>,
    title: Seq<char>,
    b: Seq<char>,
    tail: Seq<char>,
)
    requires
        is_blank(head),
        !alt.contains(']'),
        forall|i: int| 0 <= i < url.len() ==> !is_space(#[trigger] url[i]) && url[i] != ')',
        is_blank(a),
        a.len() > 0,
        is_blank(b),
        title.len() > 0,
        !is_space(title[0]),
        !is_space(title.last()),
        !title.contains(')'),
        forall|k: int| 0 <= k < tail.len() - 1 ==> !(#[trigger] tail[k] == '!' && tail[k + 1] == '['),
    ensures
        as_written(
            head + seq!['!', '['] + alt + seq![']', '('] + (url + a + title + b) + seq![')'] + tail,
        ) == head + seq!['!', '['] + alt + seq![']', '('] + url + (seq![' '] + title + seq![')'])
            + tail,
{
    let inside = url + a + title + b;
    let line = head + seq!['!', '['] + alt + seq![']', '('] + inside + seq![')'] + tail;
    let first = head + seq!['!', '['] + alt + seq![']', '('];
    let last = seq![' '] + title + seq![')'];
    lemma_image_parts(head, alt, url, a, title, b, tail);
    lemma_four_parts_filled(first, url, last, tail);
}

proof fn lemma_four_parts_filled(
    first: Seq<char>,
    url: Seq<char>,
    last: Seq<char>,
    tail: Seq<char>,
)
    ensures
        ({
            let p = seq![Part::Text(first)] + seq![
                if is_local(url) {
                    Part::Uri(url)
                } else {
                    Part::Text(url)
                },
            ] + seq![Part::Text(last)] + seq![Part::Text(tail)];
            filled(p, uris(p)) == first + url + last + tail
        }),
{
    let none = Seq::<char>::empty();
    let no_urls = Seq::<Seq<char>>::empty();
    let p0 = seq![Part::Text(first)];
    let p1 = seq![
        if is_local(url) {
            Part::Uri(url)
        } else {
            Part::Text(url)
        },
    ];
    let p2 = seq![Part::Text(last)];
    let p3 = seq![Part::Text(tail)];
    lemma_filling(first, none);
    lemma_filling(url, url);
    lemma_filling(last, none);
    lemma_filling(tail, none);
    lemma_uris_of_both(p0, p1);
    lemma_uris_of_both(p0 + p1, p2);
    lemma_uris_of_both(p0 + p1 + p2, p3);
    let own = uris(p1);
    assert(no_urls + own =~= own && own + no_urls =~= own);
    lemma_filled_both(p0, p1, no_urls, own);
    lemma_filled_both(p0 + p1, p2, own, no_urls);
    lemma_filled_both(p0 + p1 + p2, p3, own, no_urls);
    assert(filled(p1, own) == url);
}

#[verifier::rlimit(40)]
proof fn lemma_image_parts(
    head: Seq<char>,
    alt: Seq<char>,
    url: Seq<char>,
    a: Seq<char>,
    title: Seq<char>,
    b: Seq<char>,
    tail: Seq<char>,
)
    requires
        is_blank(head),
        !alt.contains(']'),
        forall|i: int| 0 <= i < url.len() ==> !is_space(#[trigger] url[i]) && url[i] != ')',
        is_blank(a),
        a.len() > 0,
        is_blank(b),
        title.len() > 0,
        !is_space(title[0]),
        !is_space(title.last()),
        !title.contains(')'),
        forall|k: int| 0 <= k < tail.len() - 1 ==> !(#[trigger] tail[k] == '!' && tail[k + 1] == '['),
    ensures
        line_parts(
            head + seq!['!', '['] + alt + seq![']', '('] + (url + a + title + b) + seq![')'] + tail,
        ) == seq![Part::Text(head + seq!['!', '['] + alt + seq![']', '('])] + seq![
            if is_local(url) {
                Part::Uri(url)
            } else {
                Part::Text(url)
            },
        ] + seq![Part::Text(seq![' '] + title + seq![')'])] + seq![Part::Text(tail)],
{
    let none = Seq::<char>::empty();
    let inside = url + a + title + b;
    let rest = seq!['!', '['] + alt + seq![']', '('] + inside + seq![')'] + tail;
    let line = head + seq!['!', '['] + alt + seq![']', '('] + inside + seq![')'] + tail;
    let h = head.len() as int;
    let n = h + alt.len() + inside.len() + 5;
    assert(line =~= head + rest);
    assert(rest[0] == '!');
    assert(is_no_definition(line)) by {
        assert(line == head + rest);
    }
    lemma_lines_with_images(line);
    assert forall|k: int| 0 <= k < h implies !(line[k] == '!' && k + 1 < line.len()
        && #[trigger] line[k + 1] == '[') by {
        assert(line[k] == head[k]);
        assert(is_space(head[k]));
    }
    assert(h > 0 ==> is_space(head[h - 1]));
    lemma_closes_nowhere(url, a, title, b);
    assert(none + head =~= head);
    lemma_image_in_text(none, head, alt, inside, tail);
    assert(line.skip(n) =~= tail);
    assert forall|k: int| n <= k < line.len() implies !(line[k] == '!' && k + 1 < line.len()
        && #[trigger] line[k + 1] == '[') by {
        if k + 1 < line.len() {
            assert(line[k] == tail[k - n] && line[k + 1] == tail[k - n + 1]);
        }
    }
    lemma_text_behind_images(line, n);
    lemma_urls_and_titles(url, a, title, b);
    assert(spaced_title(title) + seq![')'] =~= seq![' '] + title + seq![')']);
    assert(line_parts(line) =~= seq![Part::Text(head + seq!['!', '['] + alt + seq![']', '('])]
        + seq![
        if is_local(url) {
            Part::Uri(url)
        } else {
            Part::Text(url)
        },
    ] + seq![Part::Text(seq![' '] + title + seq![')'])] + seq![Part::Text(tail)]);
}

proof fn lemma_closes_nowhere(url: Seq<char>, a: Seq<char>, title: Seq<char>, b: Seq<char>)
    requires
        forall|i: int| 0 <= i < url.len() ==> #[trigger] url[i] != ')',
        is_blank(a),
        is_blank(b),
        !title.contains(')'),
    ensures
        !(url + a + title + b).contains(')'),
{
    let inside = url + a + title + b;
    if inside.contains(')') {
        let k = choose|k: int| 0 <= k < inside.len() && inside[k] == ')';
        if k < url.len() {
            assert(url[k] == ')');
        } else if k < url.len() + a.len() {
            assert(is_space(a[k - url.len()]));
        } else if k < url.len() + a.len() + title.len() {
            assert(title.contains(title[k - url.len() - a.len()]));
        } else {
            assert(is_space(b[k - url.len() - a.len() - title.len()]));
        }
    }
}

/// A caption whose text up to its first closing parenthesis is `c`, and what follows from there on
/// `d`.
pub open spec fn is_split_caption(caption: Seq<char>, c: Seq<char>, d: Seq<char>) -> bool {
    &&& caption == c + d
    &&& !c.contains(')')
    &&& d.len() > 0 ==> d[0] == ')' && (c.len() > 0 ==> !is_space(c.last()))
    &&& forall|k: int| 0 <= k < d.len() - 1 ==> !(#[trigger] d[k] == '!' && d[k + 1] == '[')
}

proof fn lemma_caption_without_parentheses(
    before: Seq<char>,
    alt: Seq<char>,
    url: Seq<char>,
    a: Seq<char>,
    quote: char,
    c: Seq<char>,
    b: Seq<char>,
    tail: Seq<char>,
)
    requires
        is_blank(before),
        is_blank(a),
        is_blank(b),
        is_blank(tail),
        a.len() > 0,
        quote == '"' || quote == '\'',
        !alt.contains(']'),
        forall|i: int| 0 <= i < url.len() ==> !is_space(#[trigger] url[i]) && url[i] != ')',
        !c.contains(')'),
    ensures
        as_written(before + titled_image(alt, url, a, quote, c, b) + tail) == before + titled_image(
            alt,
            url,
            seq![' '],
            quote,
            c,
            seq![],
        ) + tail,
{
    let title = seq![quote] + c + seq![quote];
    assert(!title.contains(')')) by {
        if title.contains(')') {
            let k = choose|k: int| 0 <= k < title.len() && title[k] == ')';
            assert(c.contains(c[k - 1]));
        }
    }
    assert(title[0] == quote && title.last() == quote);
    assert forall|k: int| 0 <= k < tail.len() - 1 implies !(#[trigger] tail[k] == '!' && tail[k + 1]
        == '[') by {
        assert(is_space(tail[k]));
    }
    lemma_image_as_written(before, alt, url, a, title, b, tail);
    lemma_image_regrouped(before, alt, url, a, title, b, tail);
    lemma_title_regrouped(before, alt, url, quote, c, tail);
    lemma_titled_regrouped(alt, url, a, quote, c, b);
}

proof fn lemma_titled_regrouped(
    alt: Seq<char>,
    url: Seq<char>,
    a: Seq<char>,
    quote: char,
    c: Seq<char>,
    b: Seq<char>,
)
    ensures
        titled_image(alt, url, a, quote, c, b) == seq!['!', '['] + alt + seq![']', '('] + (url + a + (
        seq![quote] + c + seq![quote]) + b) + seq![')'],
{
    assert(titled_image(alt, url, a, quote, c, b) =~= seq!['!', '['] + alt + seq![']', '('] + (url
        + a + (seq![quote] + c + seq![quote]) + b) + seq![')']);
}

proof fn lemma_image_regrouped(
    before: Seq<char>,
    alt: Seq<char>,
    url: Seq<char>,
    a: Seq<char>,
    title: Seq<char>,
    b: Seq<char>,
    tail: Seq<char>,
)
    ensures
        before + (seq!['!', '['] + alt + seq![']', '('] + (url + a + title + b) + seq![')']) + tail
            == before + seq!['!', '['] + alt + seq![']', '('] + (url + a + title + b) + seq![')']
            + tail,
{
    assert(before + (seq!['!', '['] + alt + seq![']', '('] + (url + a + title + b) + seq![')'])
        + tail =~= before + seq!['!', '['] + alt + seq![']', '('] + (url + a + title + b) + seq![
        ')',
    ] + tail);
}

proof fn lemma_title_regrouped(
    before: Seq<char>,
    alt: Seq<char>,
    url: Seq<char>,
    quote: char,
    c: Seq<char>,
    tail: Seq<char>,
)
    ensures
        before + seq!['!', '['] + alt + seq![']', '('] + url + (seq![' '] + (seq![quote] + c + seq![
            quote,
        ]) + seq![')']) + tail == before + titled_image(alt, url, seq![' '], quote, c, seq![]) + tail,
{
    assert(before + seq!['!', '['] + alt + seq![']', '('] + url + (seq![' '] + (seq![quote] + c
        + seq![quote]) + seq![')']) + tail =~= before + titled_image(
        alt,
        url,
        seq![' '],
        quote,
        c,
        seq![],
    ) + tail);
}

#[verifier::rlimit(40)]
proof fn lemma_split_regrouped(
    before: Seq<char>,
    alt: Seq<char>,
    url: Seq<char>,
    a: Seq<char>,
    quote: char,
    c: Seq<char>,
    e: Seq<char>,
    b: Seq<char>,
    tail: Seq<char>,
)
    ensures
        ({
            let more = e + seq![quote] + b + seq![')'] + tail;
            let caption = c + (seq![')'] + e);
            &&& before + seq!['!', '['] + alt + seq![']', '('] + (url + a + (seq![quote] + c) + seq![])
                + seq![')'] + more == before + titled_image(alt, url, a, quote, caption, b) + tail
            &&& before + seq!['!', '['] + alt + seq![']', '('] + url + (seq![' '] + (seq![quote] + c)
                + seq![')']) + more == before + titled_image(alt, url, seq![' '], quote, caption, b)
                + tail
        }),
{
    let more = e + seq![quote] + b + seq![')'] + tail;
    let caption = c + (seq![')'] + e);
    let none = Seq::<char>::empty();
    assert(before + seq!['!', '['] + alt + seq![']', '('] + (url + a + (seq![quote] + c) + none)
        + seq![')'] + more =~= before + titled_image(alt, url, a, quote, caption, b) + tail);
    assert(before + seq!['!', '['] + alt + seq![']', '('] + url + (seq![' '] + (seq![quote] + c)
        + seq![')']) + more =~= before + titled_image(alt, url, seq![' '], quote, caption, b) + tail);
}

proof fn lemma_no_image_behind(d: Seq<char>, quote: char, b: Seq<char>, tail: Seq<char>)
    requires
        d.len() > 0,
        quote == '"' || quote == '\'',
        is_blank(b),
        is_blank(tail),
        forall|k: int| 0 <= k < d.len() - 1 ==> !(#[trigger] d[k] == '!' && d[k + 1] == '['),
    ensures
        ({
            let more = d.skip(1) + seq![quote] + b + seq![')'] + tail;
            forall|k: int|
                0 <= k < more.len() - 1 ==> !(#[trigger] more[k] == '!' && more[k + 1] == '[')
        }),
{
    let more = d.skip(1) + seq![quote] + b + seq![')'] + tail;
    assert forall|k: int| 0 <= k < more.len() - 1 implies !(#[trigger] more[k] == '!' && more[k + 1]
        == '[') by {
        let n = d.len() - 1;
        if k < n - 1 {
            assert(more[k] == d[k + 1] && more[k + 1] == d[k + 2]);
        } else if k == n - 1 {
            assert(more[k + 1] == quote);
        } else if n + 1 <= k < n + 1 + b.len() {
            assert(more[k] == b[k - n - 1]);
            assert(is_space(b[k - n - 1]));
        } else if k > n + 1 + b.len() {
            assert(more[k] == tail[k - n - 2 - b.len()]);
            assert(is_space(tail[k - n - 2 - b.len()]));
        }
    }
}

#[verifier::rlimit(40)]
proof fn lemma_titled_image_as_written(
    before: Seq<char>,
    alt: Seq<char>,
    url: Seq<char>,
    a: Seq<char>,
    quote: char,
    c: Seq<char>,
    d: Seq<char>,
    b: Seq<char>,
    tail: Seq<char>,
) -> (rest: Seq<char>)
    requires
        is_blank(before),
        is_blank(a),
        is_blank(b),
        is_blank(tail),
        a.len() > 0,
        quote == '"' || quote == '\'',
        !alt.contains(']'),
        forall|i: int| 0 <= i < url.len() ==> !is_space(#[trigger] url[i]) && url[i] != ')',
        is_split_caption(c + d, c, d),
    ensures
        is_blank(rest),
        as_written(before + titled_image(alt, url, a, quote, c + d, b) + tail) == before
            + titled_image(alt, url, seq![' '], quote, c + d, rest) + tail,
{
    let none = Seq::<char>::empty();
    if d.len() == 0 {
        assert(c + d =~= c);
        lemma_caption_without_parentheses(before, alt, url, a, quote, c, b, tail);
        none
    } else {
        let title = seq![quote] + c;
        let e = d.skip(1);
        let more = e + seq![quote] + b + seq![')'] + tail;
        assert(seq![')'] + e =~= d);
        assert(!title.contains(')')) by {
            if title.contains(')') {
                let k = choose|k: int| 0 <= k < title.len() && title[k] == ')';
                assert(c.contains(c[k - 1]));
            }
        }
        assert(title[0] == quote);
        assert(title.last() == if c.len() > 0 {
            c.last()
        } else {
            quote
        });
        lemma_no_image_behind(d, quote, b, tail);
        lemma_image_as_written(before, alt, url, a, title, none, more);
        lemma_split_regrouped(before, alt, url, a, quote, c, e, b, tail);
        b
    }
}

/// A figure of a document is one wherever on its line it stands, whatever whitespace stands in it,
/// however its line ends, and with parentheses in its caption as well.
#[verifier::rlimit(40)]
pub proof fn lemma_figures_of_documents(
    before: Seq<char>,
    alt: Seq<char>,
    url: Seq<char>,
    a: Seq<char>,
    quote: char,
    c: Seq<char>,
    d: Seq<char>,
    b: Seq<char>,
    behind: Seq<char>,
    end: Seq<char>,
)
    requires
        is_blank(before),
        is_blank(a),
        is_blank(b),
        is_blank(behind),
        a.len() > 0,
        quote == '"' || quote == '\'',
        !alt.contains('['),
        !alt.contains(']'),
        url.len() > 0,
        forall|i: int| 0 <= i < url.len() ==> !is_space(#[trigger] url[i]),
        !url.contains('('),
        !url.contains(')'),
        is_split_caption(c + d, c, d),
        !(c + d).contains(quote),
        end == seq!['\n'] || end == seq!['\r', '\n'] || end == Seq::<char>::empty(),
        is_piece(before + titled_image(alt, url, a, quote, c + d, b) + behind + end),
        !behind.contains('\r'),
        end.len() == 0 ==> !behind.contains('\n'),
    ensures
        figure_in(before + titled_image(alt, url, a, quote, c + d, b) + behind + end) == Some(
            (alt, url, c + d),
        ),
        line_ending(before + titled_image(alt, url, a, quote, c + d, b) + behind + end) == end,
{
    let image = titled_image(alt, url, a, quote, c + d, b);
    let body = before + image + behind;
    let line = body + end;
    let tail = behind + end;
    assert forall|i: int| 0 <= i < url.len() implies !is_space(#[trigger] url[i]) && url[i]
        != ')' by {
        assert(url.contains(url[i]));
    }
    assert(is_space('\n') && is_space('\r'));
    assert forall|i: int| 0 <= i < tail.len() implies is_space(#[trigger] tail[i]) by {
        if i < behind.len() {
            assert(tail[i] == behind[i]);
        }
    }
    assert(line =~= before + image + tail);
    let rest = lemma_titled_image_as_written(before, alt, url, a, quote, c, d, b, tail);
    let tidy = titled_image(alt, url, seq![' '], quote, c + d, rest);
    let shown = before + tidy + behind;
    assert(as_written(line) == before + tidy + tail);
    assert(before + tidy + tail =~= shown + end);
    assert(is_blank(seq![' '])) by {
        assert(is_space(' '));
    }
    lemma_titled_images_are_figures(before, alt, url, seq![' '], quote, c + d, rest, behind);
    assert(image.last() == ')' && tidy.last() == ')');
    lemma_body_of_figure(before, tidy, behind, end);
    lemma_body_of_figure(before, image, behind, end);
}

proof fn lemma_body_of_figure(
    before: Seq<char>,
    image: Seq<char>,
    behind: Seq<char>,
    end: Seq<char>,
)
    requires
        image.len() > 0,
        image.last() == ')',
        end == seq!['\n'] || end == seq!['\r', '\n'] || end == Seq::<char>::empty(),
        !behind.contains('\r'),
        end.len() == 0 ==> !behind.contains('\n'),
    ensures
        line_body(before + image + behind + end) == before + image + behind,
        line_ending(before + image + behind + end) == end,
{
    let body = before + image + behind;
    let line = body + end;
    let n = body.len() as int;
    assert(body.last() != '\r' && (end.len() == 0 ==> body.last() != '\n')) by {
        if behind.len() > 0 {
            assert(body.last() == behind.last());
            assert(behind.contains(behind.last()));
        } else {
            assert(body.last() == image.last());
        }
    }
    if end.len() == 0 {
        assert(line.last() == body.last());
        assert(line_body(line) =~= body && line_ending(line) =~= end);
    } else if end.len() == 1 {
        assert(line[n] == '\n' && line[n - 1] == body.last());
        assert(line_body(line) =~= body && line_ending(line) =~= end);
    } else {
        assert(line[n] == '\r' && line[n + 1] == '\n');
        assert(line_body(line) =~= body && line_ending(line) =~= end);
    }
}

/// A figure of a document is shown with its caption, as markdown or as HTML, and its image leads to
/// the file where its URL is a local path.
pub proof fn lemma_figures_are_shown(
    alt: Seq<char>,
    url: Seq<char>,
    quote: char,
    caption: Seq<char>,
    dir: Seq<char>,
    html: bool,
    out: Seq<char>,
) -> (target: Seq<char>)
    requires
        is_shown_text(
            titled_image(alt, url, seq![' '], quote, caption, seq![]) + seq!['\n'],
            dir,
            html,
            out,
        ),
        quote == '"' || quote == '\'',
        !alt.contains('['),
        !alt.contains(']'),
        !alt.contains('\n'),
        url.len() > 0,
        forall|i: int| 0 <= i < url.len() ==> !is_space(#[trigger] url[i]),
        !url.contains('('),
        !url.contains(')'),
        !caption.contains(quote),
        !caption.contains(')'),
        !caption.contains('\n'),
    ensures
        is_local(url) ==> is_file_url_of(url, dir, target),
        !is_local(url) ==> target == url,
        html ==> out == seq!['\n'] + ("<figure><img src=\""@ + html_escaped(target) + "\" alt=\""@
            + html_escaped(alt) + "\"><figcaption>"@ + html_escaped(caption)
            + "</figcaption></figure>"@) + seq!['\n'] + seq!['\n'],
        !html ==> out == (seq!['!', '['] + alt + seq![']', '('] + target + seq![')']) + seq!['\n']
            + seq!['\n'] + (seq!['*'] + stars_escaped(caption) + seq!['*']) + seq!['\n'],
{
    let line = titled_image(alt, url, seq![' '], quote, caption, seq![]) + seq!['\n'];
    lemma_image_is_one_line(alt, url, quote, caption);
    lemma_shown_line_alone(line, dir, html, out);
    lemma_figure_in_line(alt, url, quote, caption);
    lemma_line_endings(titled_image(alt, url, seq![' '], quote, caption, seq![]));
    assert(line_ending(line) == seq!['\n']);
    assert(line_break(line) == seq!['\n']);
    assert(is_shown_figure(line, alt, url, caption, dir, html, out));
    let target = choose|target: Seq<char>| #[trigger]
        is_target_of(url, dir, target) && out == figure_text(line, alt, target, caption, html);
    target
}

proof fn lemma_figure_in_line(alt: Seq<char>, url: Seq<char>, quote: char, caption: Seq<char>)
    requires
        quote == '"' || quote == '\'',
        !alt.contains('['),
        !alt.contains(']'),
        !alt.contains('\n'),
        url.len() > 0,
        forall|i: int| 0 <= i < url.len() ==> !is_space(#[trigger] url[i]),
        !url.contains('('),
        !url.contains(')'),
        !caption.contains(quote),
        !caption.contains(')'),
        !caption.contains('\n'),
    ensures
        figure_in(titled_image(alt, url, seq![' '], quote, caption, seq![]) + seq!['\n']) == Some(
            (alt, url, caption),
        ),
        titled_image(alt, url, seq![' '], quote, caption, seq![]).last() == ')',
{
    let none = Seq::<char>::empty();
    let image = titled_image(alt, url, seq![' '], quote, caption, none);
    lemma_image_is_one_line(alt, url, quote, caption);
    assert(is_blank(seq![' '])) by {
        assert(is_space(' '));
    }
    assert(caption + none =~= caption);
    assert(none + image + none + seq!['\n'] =~= image + seq!['\n']);
    lemma_figures_of_documents(
        none,
        alt,
        url,
        seq![' '],
        quote,
        caption,
        none,
        none,
        none,
        seq!['\n'],
    );
}

proof fn lemma_image_is_one_line(alt: Seq<char>, url: Seq<char>, quote: char, caption: Seq<char>)
    requires
        quote == '"' || quote == '\'',
        !alt.contains('\n'),
        forall|i: int| 0 <= i < url.len() ==> !is_space(#[trigger] url[i]),
        !caption.contains('\n'),
    ensures
        ({
            let image = titled_image(alt, url, seq![' '], quote, caption, seq![]);
            !image.contains('\n') && is_piece(image + seq!['\n'])
        }),
{
    let image = titled_image(alt, url, seq![' '], quote, caption, seq![]);
    let line = image + seq!['\n'];
    assert forall|i: int| 0 <= i < image.len() implies #[trigger] image[i] != '\n' by {
        if 2 <= i < 2 + alt.len() {
            assert(image[i] == alt[i - 2]);
            assert(alt.contains(alt[i - 2]));
        } else if 4 + alt.len() <= i < 4 + alt.len() + url.len() {
            assert(image[i] == url[i - 4 - alt.len()]);
            assert(is_space('\n'));
        } else if 6 + alt.len() + url.len() <= i < 6 + alt.len() + url.len() + caption.len() {
            let k = i - 6 - alt.len() - url.len();
            assert(image[i] == caption[k]);
            assert(caption.contains(caption[k]));
        }
    }
    assert forall|i: int| 0 <= i < line.len() - 1 implies #[trigger] line[i] != '\n' by {
        assert(line[i] == image[i]);
    }
}

proof fn lemma_text_kept_before_images(line: Seq<char>, from: int, n: int)
    requires
        0 <= from <= n <= line.len(),
        has_no_image(line, from, n),
    ensures
        ({
            let p = inline_parts(line, from);
            let out = filled(p, uris(p));
            out.len() >= n - from && out.take(n - from) == line.subrange(from, n)
        }),
    decreases line.len() - from,
{
    let p = inline_parts(line, from);
    lemma_inline_progress(line, from);
    lemma_find_pair(line, from, '!', '[');
    let first = p[0];
    let rest = p.skip(1);
    let b = match find_pair(line, from, '!', '[') {
        Some(b) => b,
        None => line.len() as int,
    };
    assert(b >= n) by {
        if b < n {
            assert(line[b + 1] == '[');
        }
    }
    assert(p =~= seq![first] + rest);
    assert(first is Text);
    let t = first->Text_0;
    assert(t.len() >= n - from && t.take(n - from) =~= line.subrange(from, n));
    lemma_filling(t, t);
    lemma_uris_of_both(seq![first], rest);
    lemma_filled_both(seq![first], rest, seq![], uris(rest));
    assert(Seq::<Seq<char>>::empty() + uris(rest) =~= uris(rest));
    assert((t + filled(rest, uris(rest))).take(n - from) =~= t.take(n - from));
}

/// A line on which text stands before the images is no figure: its images lead to files, and
/// nothing else changes.
#[verifier::rlimit(40)]
pub proof fn lemma_lines_with_text_before_images(
    indent: Seq<char>,
    rest: Seq<char>,
    dir: Seq<char>,
    html: bool,
    out: Seq<char>,
)
    requires
        is_piece(indent + rest),
        is_blank(indent),
        rest.len() > 0,
        !is_space(rest[0]),
        rest[0] != '!',
        rest[0] != '[',
        is_shown_text(indent + rest, dir, html, out),
    ensures
        is_resolved(indent + rest, dir, out),
{
    let line = indent + rest;
    let k = indent.len() as int;
    lemma_shown_line_alone(line, dir, html, out);
    assert(is_no_definition(line));
    lemma_lines_with_images(line);
    assert(has_no_image(line, 0, k + 1)) by {
        assert forall|j: int| 0 <= j < k + 1 implies !(line[j] == '!' && j + 1 < line.len()
            && #[trigger] line[j + 1] == '[') by {
            if j < k {
                assert(is_space(indent[j]));
                assert(line[j] == indent[j]);
            } else {
                assert(line[j] == rest[0]);
            }
        }
    }
    lemma_text_kept_before_images(line, 0, k + 1);
    let written = as_written(line);
    assert(written.take(k + 1) == line.subrange(0, k + 1));
    assert forall|j: int| 0 <= j < k + 1 implies #[trigger] written[j] == line[j] by {
        assert(written.take(k + 1)[j] == written[j]);
        assert(line.subrange(0, k + 1)[j] == line[j]);
    }
    let body = line_body(written);
    if figure_of(body) is Some {
        lemma_figures_are_titled_images(body);
        let (alt, url, caption) = figure_of(body)->0;
        let (before, a, quote, b, behind) = choose|
            before: Seq<char>,
            a: Seq<char>,
            quote: char,
            b: Seq<char>,
            behind: Seq<char>,
        |
            is_blank(before) && is_blank(a) && is_blank(b) && is_blank(behind) && a.len() > 0 && (
            quote == '"' || quote == '\'') && body == #[trigger] (before + titled_image(
                alt,
                url,
                a,
                quote,
                caption,
                b,
            ) + behind);
        let image = titled_image(alt, url, a, quote, caption, b);
        let m = before.len() as int;
        assert(image[0] == '!');
        assert(body[m] == image[0]);
        assert(written[m] == body[m]);
        assert(written[k] == rest[0]);
        if m < k {
            assert(written[m] == line[m]);
            assert(line[m] == indent[m]);
            assert(is_space(indent[m]));
        } else if m > k {
            assert(before[k] == body[k]);
            assert(body[k] == written[k]);
            assert(is_space(before[k]));
        }
    }
}

/// An image without a title that stands alone on its line is shown as an image that leads to its
/// file.
#[verifier::rlimit(40)]
pub proof fn lemma_images_alone_are_resolved(
    alt: Seq<char>,
    url: Seq<char>,
    dir: Seq<char>,
    html: bool,
    out: Seq<char>,
)
    requires
        !alt.contains(']'),
        !alt.contains('\n'),
        url.len() > 0,
        forall|i: int| 0 <= i < url.len() ==> !is_space(#[trigger] url[i]) && url[i] != ')',
        is_shown_text(
            (seq!['!', '['] + alt + seq![']', '('] + url + seq![')']) + seq!['\n'],
            dir,
            html,
            out,
        ),
    ensures
        is_resolved(
            (seq!['!', '['] + alt + seq![']', '('] + url + seq![')']) + seq!['\n'],
            dir,
            out,
        ),
{
    let none = Seq::<char>::empty();
    let image = seq!['!', '['] + alt + seq![']', '('] + url + seq![')'];
    let line = image + seq!['\n'];
    let n = image.len() as int;
    assert forall|i: int| 0 <= i < image.len() implies #[trigger] image[i] != '\n' by {
        if 2 <= i < 2 + alt.len() {
            assert(image[i] == alt[i - 2]);
            assert(alt.contains(alt[i - 2]));
        } else if 4 + alt.len() <= i < 4 + alt.len() + url.len() {
            assert(image[i] == url[i - 4 - alt.len()]);
            assert(is_space('\n'));
        }
    }
    assert forall|i: int| 0 <= i < line.len() - 1 implies #[trigger] line[i] != '\n' by {
        assert(line[i] == image[i]);
    }
    assert(is_piece(line));
    lemma_shown_line_alone(line, dir, html, out);
    assert(line[0] == '!');
    assert(line == none + line) by {
        assert(none + line =~= line);
    }
    assert(is_no_definition(line));
    lemma_lines_with_images(line);
    assert(!url.contains(')'));
    assert(none + none + seq!['!', '['] + alt + seq![']', '('] + url + seq![')'] + seq!['\n']
        =~= line);
    lemma_image_in_text(none, none, alt, url, seq!['\n']);
    lemma_text_behind_images(line, n);
    assert(line.skip(n) =~= seq!['\n']);
    assert(is_blank(seq![' '])) by {
        assert(is_space(' '));
    }
    lemma_urls_and_titles(url, seq![' '], none, none);
    let first = none + seq!['!', '['] + alt + seq![']', '('];
    let p0 = seq![Part::Text(first)];
    let p1 = seq![
        if is_local(url) {
            Part::Uri(url)
        } else {
            Part::Text(url)
        },
    ];
    let p2 = seq![Part::Text(seq![')'])];
    let p3 = seq![Part::Text(seq!['\n'])];
    assert(spaced_title(none) + seq![')'] =~= seq![')']);
    assert(line_parts(line) =~= p0 + p1 + p2 + p3);
    lemma_filling(first, none);
    lemma_filling(url, url);
    lemma_filling(seq![')'], none);
    lemma_filling(seq!['\n'], none);
    lemma_uris_of_both(p0, p1);
    lemma_uris_of_both(p0 + p1, p2);
    lemma_uris_of_both(p0 + p1 + p2, p3);
    let no_urls = Seq::<Seq<char>>::empty();
    let own = uris(p1);
    assert(no_urls + own =~= own && own + no_urls =~= own);
    lemma_filled_both(p0, p1, no_urls, own);
    lemma_filled_both(p0 + p1, p2, own, no_urls);
    lemma_filled_both(p0 + p1 + p2, p3, own, no_urls);
    assert(filled(p1, own) == url);
    assert(as_written(line) =~= line);
    lemma_line_endings(image);
    assert(image.last() == ')');
    lemma_images_without_title(none, alt, url, none);
    assert(none + image + none =~= image);
    assert(line_body(line) == image);
}

} // verus!
