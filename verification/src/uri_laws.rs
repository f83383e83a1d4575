//! Which URIs of images are local paths, and what becomes of them.
use crate::image_laws::{lemma_filled_both, lemma_uris_of_both};
use crate::images::{
    carries_scheme, file_url, filled, inline_parts, is_file_url_of, is_local, is_resolved,
    lemma_plain_file_url, line_parts, parts_of, parts_of_lines, spaced_title, uris, url_and_title,
    Part,
};
use crate::lines::{is_piece, lemma_one_piece, line_body, line_ending};
use crate::paths::{plain_join, slashed};
use crate::text::{
    find_char, find_pair, find_space, is_space, lemma_find_char, lemma_find_pair, lemma_find_space,
    lemma_nothing_to_trim, trim_start,
};
use crate::text_laws::{is_blank, lemma_line_endings, lemma_trimming};
use vstd::prelude::*;

verus! {

/// A URI without a colon that does not begin with `#` is a local path, whatever else stands in it.
pub proof fn lemma_paths_are_local(uri: Seq<char>)
    requires
        uri.len() > 0,
        uri[0] != '#',
        !uri.contains(':'),
    ensures
        is_local(uri),
        !carries_scheme(uri),
{
    reveal_strlit("http://");
    reveal_strlit("https://");
    reveal_strlit("file://");
    reveal_strlit("data:");
    if carries_scheme(uri) {
        let k: int = if "http://"@.is_prefix_of(uri) || "file://"@.is_prefix_of(uri)
            || "data:"@.is_prefix_of(uri) {
            4
        } else {
            5
        };
        if "http://"@.is_prefix_of(uri) {
            assert("http://"@[k] == uri[k]);
        } else if "file://"@.is_prefix_of(uri) {
            assert("file://"@[k] == uri[k]);
        } else if "data:"@.is_prefix_of(uri) {
            assert("data:"@[k] == uri[k]);
        } else {
            assert("https://"@[k] == uri[k]);
        }
        assert(uri.contains(uri[k]));
    }
}

/// Four schemes and the `#` of a place in the document are known, and nothing else makes a URI more
/// than a local path.
pub proof fn lemma_known_schemes(uri: Seq<char>, rest: Seq<char>)
    ensures
        !is_local(seq![]),
        carries_scheme(seq!['#'] + rest),
        carries_scheme(seq!['h', 't', 't', 'p', ':', '/', '/'] + rest),
        carries_scheme(seq!['h', 't', 't', 'p', 's', ':', '/', '/'] + rest),
        carries_scheme(seq!['f', 'i', 'l', 'e', ':', '/', '/'] + rest),
        carries_scheme(seq!['d', 'a', 't', 'a', ':'] + rest),
        carries_scheme(uri) ==> {
            ||| uri[0] == '#'
            ||| uri.len() >= 7 && uri.take(7) == seq!['h', 't', 't', 'p', ':', '/', '/']
            ||| uri.len() >= 8 && uri.take(8) == seq!['h', 't', 't', 'p', 's', ':', '/', '/']
            ||| uri.len() >= 7 && uri.take(7) == seq!['f', 'i', 'l', 'e', ':', '/', '/']
            ||| uri.len() >= 5 && uri.take(5) == seq!['d', 'a', 't', 'a', ':']
        },
        is_local(uri) == (uri.len() > 0 && !carries_scheme(uri)),
{
    reveal_strlit("http://");
    reveal_strlit("https://");
    reveal_strlit("file://");
    reveal_strlit("data:");
    let http = seq!['h', 't', 't', 'p', ':', '/', '/'];
    let https = seq!['h', 't', 't', 'p', 's', ':', '/', '/'];
    let file = seq!['f', 'i', 'l', 'e', ':', '/', '/'];
    let data = seq!['d', 'a', 't', 'a', ':'];
    assert("http://"@ =~= http && "https://"@ =~= https && "file://"@ =~= file && "data:"@
        =~= data);
    assert((http + rest).subrange(0, 7) =~= http);
    assert((https + rest).subrange(0, 8) =~= https);
    assert((file + rest).subrange(0, 7) =~= file);
    assert((data + rest).subrange(0, 5) =~= data);
    assert((seq!['#'] + rest)[0] == '#');
    if carries_scheme(uri) && uri[0] != '#' {
        if http.is_prefix_of(uri) {
            assert(uri.take(7) =~= uri.subrange(0, 7));
        } else if https.is_prefix_of(uri) {
            assert(uri.take(8) =~= uri.subrange(0, 8));
        } else if file.is_prefix_of(uri) {
            assert(uri.take(7) =~= uri.subrange(0, 7));
        } else {
            assert(uri.take(5) =~= uri.subrange(0, 5));
        }
    }
}

/// A URL that stands alone has no title, and what follows whitespace behind a URL is its title.
pub proof fn lemma_urls_and_titles(url: Seq<char>, a: Seq<char>, title: Seq<char>, b: Seq<char>)
    requires
        forall|i: int| 0 <= i < url.len() ==> !is_space(#[trigger] url[i]),
        is_blank(a),
        is_blank(b),
        a.len() > 0,
        title.len() > 0 ==> !is_space(title[0]) && !is_space(title.last()),
    ensures
        url_and_title(url) == (url, Seq::<char>::empty()),
        url_and_title(url + a + title + b) == (url, title),
{
    lemma_find_space(url, 0);
    lemma_nothing_to_trim(url);
    let s = url + a + title + b;
    lemma_find_space(s, 0);
    let n = url.len() as int;
    assert(s[n] == a[0]);
    assert(is_space(a[0]));
    assert(find_space(s, 0) is Some);
    let k = find_space(s, 0)->0;
    if k < n {
        assert(s[k] == url[k]);
    }
    assert(k <= n);
    assert(k == n);
    assert(s.take(n) =~= url);
    assert(s.skip(n) =~= a + title + b);
    lemma_trimming(a, title, b);
}

/// The text of parts in a row, and what is replaced in it.
pub proof fn lemma_filling(t: Seq<char>, u: Seq<char>)
    ensures
        uris(seq![]) == Seq::<Seq<char>>::empty(),
        uris(seq![Part::Text(t)]) == Seq::<Seq<char>>::empty(),
        uris(seq![Part::Uri(t)]) == seq![t],
        filled(seq![], seq![]) == Seq::<char>::empty(),
        filled(seq![Part::Text(t)], seq![]) == t,
        filled(seq![Part::Uri(t)], seq![u]) == u,
{
    let a = seq![Part::Text(t)];
    let b = seq![Part::Uri(t)];
    let none = Seq::<Part<Seq<char>>>::empty();
    assert(a.drop_last() =~= none && b.drop_last() =~= none);
    assert(uris(none) =~= seq![]);
    assert(uris(b) =~= seq![t]);
    assert(seq![u].drop_last() =~= seq![]);
    assert(filled(none, seq![]) =~= seq![]);
    assert(filled(a, seq![]) =~= t);
    assert(filled(b, seq![u]) =~= u);
}

/// Whether `line` holds no `![` that begins from the place `i` to `n`.
pub open spec fn has_no_image(line: Seq<char>, i: int, n: int) -> bool {
    forall|k: int| i <= k < n ==> !(line[k] == '!' && k + 1 < line.len() && #[trigger] line[k + 1]
        == '[')
}

proof fn lemma_image_found(line: Seq<char>, from: int, at: int)
    requires
        0 <= from <= at,
        at + 1 < line.len(),
        has_no_image(line, from, at),
        line[at] == '!',
        line[at + 1] == '[',
    ensures
        find_pair(line, from, '!', '[') == Some(at),
{
    lemma_find_pair(line, from, '!', '[');
    if let Some(b) = find_pair(line, from, '!', '[') {
        if b < at {
            assert(line[b + 1] == '[');
        }
    } else {
        assert(line[at + 1] == '[');
    }
}

/// Text without images is kept as it is, to its end.
pub proof fn lemma_text_behind_images(line: Seq<char>, from: int)
    requires
        0 <= from <= line.len(),
        has_no_image(line, from, line.len() as int),
    ensures
        inline_parts(line, from) == seq![Part::Text(line.skip(from))],
{
    lemma_find_pair(line, from, '!', '[');
    if let Some(b) = find_pair(line, from, '!', '[') {
        assert(line[b + 1] == '[');
    }
}

/// An image `![alt](url title)` is found wherever it stands, behind any text without an image, and
/// its URL is replaced exactly where it is a local path.
#[verifier::rlimit(40)]
pub proof fn lemma_image_in_text(
    p: Seq<char>,
    q: Seq<char>,
    alt: Seq<char>,
    inside: Seq<char>,
    s: Seq<char>,
)
    requires
        ({
            let line = p + q + seq!['!', '['] + alt + seq![']', '('] + inside + seq![')'] + s;
            has_no_image(line, p.len() as int, (p.len() + q.len()) as int)
        }),
        (p + q).len() > 0 ==> (p + q).last() != '\\',
        !alt.contains(']'),
        !inside.contains(')'),
    ensures
        ({
            let line = p + q + seq!['!', '['] + alt + seq![']', '('] + inside + seq![')'] + s;
            let n = (p.len() + q.len() + alt.len() + inside.len() + 5) as int;
            let (url, title) = url_and_title(inside);
            inline_parts(line, p.len() as int) == seq![
                Part::Text(q + seq!['!', '['] + alt + seq![']', '(']),
                if is_local(url) {
                    Part::Uri(url)
                } else {
                    Part::Text(url)
                },
                Part::Text(spaced_title(title) + seq![')']),
            ] + inline_parts(line, n)
        }),
{
    let line = p + q + seq!['!', '['] + alt + seq![']', '('] + inside + seq![')'] + s;
    let from = p.len() as int;
    let b = from + q.len();
    let a = b + 2 + alt.len();
    let c = a + 2 + inside.len();
    let (url, title) = url_and_title(inside);
    assert(line[b] == '!' && line[b + 1] == '[');
    lemma_image_found(line, from, b);
    assert(b > 0 ==> line[b - 1] == (p + q)[b - 1]);
    lemma_find_char(line, b + 2, ']');
    assert(line[a] == ']' && line[a + 1] == '(' && line[c] == ')');
    assert forall|k: int| b + 2 <= k < a implies line[k] != ']' by {
        assert(line[k] == alt[k - b - 2]);
        assert(alt.contains(alt[k - b - 2]));
    }
    assert(find_char(line, b + 2, ']') == Some(a));
    lemma_find_char(line, a + 2, ')');
    assert forall|k: int| a + 2 <= k < c implies line[k] != ')' by {
        assert(line[k] == inside[k - a - 2]);
        assert(inside.contains(inside[k - a - 2]));
    }
    assert(find_char(line, a + 2, ')') == Some(c));
    assert(line.subrange(a + 2, c) =~= inside);
    assert(line.subrange(from, a + 2) =~= q + seq!['!', '['] + alt + seq![']', '(']);
    assert(spaced_title(title).push(')') =~= spaced_title(title) + seq![')']);
}

/// What only looks like an image is kept: one behind a backslash, one without a target, and one
/// that nothing closes.
#[verifier::rlimit(40)]
pub proof fn lemma_no_image_in_text(p: Seq<char>, q: Seq<char>, alt: Seq<char>, s: Seq<char>)
    requires
        ({
            let line = p + q + seq!['!', '['] + alt + s;
            has_no_image(line, p.len() as int, (p.len() + q.len()) as int)
        }),
        !alt.contains(']'),
    ensures
        ({
            let line = p + q + seq!['!', '['] + alt + s;
            let i = p.len() as int;
            let b = i + q.len();
            let n = b + 2 + alt.len();
            &&& (p + q).len() > 0 && (p + q).last() == '\\' ==> inline_parts(line, i) == seq![
                Part::Text(q + seq!['!', '[']),
            ] + inline_parts(line, b + 2)
            &&& ((p + q).len() == 0 || (p + q).last() != '\\') && s.len() == 0 ==> inline_parts(
                line,
                i,
            ) == seq![Part::Text(line.skip(i))]
            &&& ((p + q).len() == 0 || (p + q).last() != '\\') && s.len() > 0 && s[0] == ']' && (
            s.len() == 1 || s[1] != '(') ==> inline_parts(line, i) == seq![
                Part::Text(q + seq!['!', '['] + alt + seq![']']),
            ] + inline_parts(line, n + 1)
            &&& ((p + q).len() == 0 || (p + q).last() != '\\') && s.len() > 1 && s[0] == ']' && s[1]
                == '(' && !s.contains(')') ==> inline_parts(line, i) == seq![
                Part::Text(line.skip(i)),
            ]
        }),
{
    let line = p + q + seq!['!', '['] + alt + s;
    let i = p.len() as int;
    let b = i + q.len();
    let n = b + 2 + alt.len();
    assert(line[b] == '!' && line[b + 1] == '[');
    lemma_image_found(line, i, b);
    assert(b > 0 ==> line[b - 1] == (p + q)[b - 1]);
    assert(line.subrange(i, b + 2) =~= q + seq!['!', '[']);
    lemma_find_char(line, b + 2, ']');
    assert forall|k: int| b + 2 <= k < n implies line[k] != ']' by {
        assert(line[k] == alt[k - b - 2]);
        assert(alt.contains(alt[k - b - 2]));
    }
    if s.len() > 0 && s[0] == ']' {
        assert(line[n] == ']');
        assert(find_char(line, b + 2, ']') == Some(n));
        assert(line.subrange(i, n + 1) =~= q + seq!['!', '['] + alt + seq![']']);
        assert(s.len() > 1 ==> line[n + 1] == s[1]);
        if s.len() > 1 && s[1] == '(' && !s.contains(')') {
            lemma_find_char(line, n + 2, ')');
            assert forall|k: int| n + 2 <= k < line.len() implies line[k] != ')' by {
                assert(line[k] == s[k - n]);
                assert(s.contains(s[k - n]));
            }
        }
    } else if s.len() == 0 {
        assert(find_char(line, b + 2, ']') is None);
    }
}

/// A line that defines no reference: its first character behind whitespace is no bracket.
pub open spec fn is_no_definition(line: Seq<char>) -> bool {
    exists|a: Seq<char>, s: Seq<char>|
        line == #[trigger] (a + s) && is_blank(a) && (s.len() > 0 ==> !is_space(s[0]) && s[0]
            != '[')
}

proof fn lemma_trimmed_start(a: Seq<char>, s: Seq<char>)
    requires
        is_blank(a),
        s.len() > 0 ==> !is_space(s[0]),
    ensures
        trim_start(a + s) == s,
    decreases a.len(),
{
    if a.len() == 0 {
        assert(a + s =~= s);
    } else {
        let rest = a.skip(1);
        assert(is_space(a[0]));
        assert forall|i: int| 0 <= i < rest.len() implies is_space(#[trigger] rest[i]) by {
            assert(rest[i] == a[i + 1]);
        }
        assert((a + s).skip(1) =~= rest + s);
        lemma_trimmed_start(rest, s);
    }
}

/// Images stand in lines that define no reference.
pub proof fn lemma_lines_with_images(line: Seq<char>)
    requires
        is_no_definition(line),
    ensures
        line_parts(line) == inline_parts(line, 0),
{
    let (a, s) = choose|a: Seq<char>, s: Seq<char>|
        line == #[trigger] (a + s) && is_blank(a) && (s.len() > 0 ==> !is_space(s[0]) && s[0]
            != '[');
    lemma_trimmed_start(a, s);
}

proof fn lemma_parts_of_line(line: Seq<char>)
    requires
        is_piece(line),
    ensures
        parts_of(line) == line_parts(line),
{
    lemma_one_piece(line);
    assert(seq![line].drop_last() =~= seq![]);
    assert(parts_of_lines(seq![line].drop_last()) =~= seq![]);
    assert(parts_of(line) =~= line_parts(line));
}

/// The part that a URL is.
spec fn url_part(url: Seq<char>) -> Part<Seq<char>> {
    if is_local(url) {
        Part::Uri(url)
    } else {
        Part::Text(url)
    }
}

#[verifier::rlimit(40)]
proof fn lemma_parts_of_one_image(
    head: Seq<char>,
    alt: Seq<char>,
    url: Seq<char>,
    title: Seq<char>,
    tail: Seq<char>,
)
    requires
        ({
            let line = head + seq!['!', '['] + alt + seq![']', '('] + (url + title) + seq![')']
                + tail;
            let n = (head.len() + alt.len() + url.len() + title.len() + 5) as int;
            &&& is_no_definition(line)
            &&& has_no_image(line, 0, head.len() as int)
            &&& has_no_image(line, n, line.len() as int)
        }),
        head.len() > 0 ==> head.last() != '\\',
        !alt.contains(']'),
        forall|i: int| 0 <= i < url.len() ==> !is_space(#[trigger] url[i]) && url[i] != ')',
        title.len() > 0 ==> title.len() > 1 && title[0] == ' ' && !is_space(title[1]) && !is_space(
            title.last(),
        ),
        !title.contains(')'),
    ensures
        ({
            let line = head + seq!['!', '['] + alt + seq![']', '('] + (url + title) + seq![')']
                + tail;
            line_parts(line) == seq![Part::Text(head + seq!['!', '['] + alt + seq![']', '('])]
                + seq![url_part(url)] + seq![Part::Text(title + seq![')'])] + seq![Part::Text(tail)]
        }),
{
    let inside = url + title;
    let line = head + seq!['!', '['] + alt + seq![']', '('] + inside + seq![')'] + tail;
    let none = Seq::<char>::empty();
    let n = (head.len() + alt.len() + inside.len() + 5) as int;
    let bare = if title.len() > 0 {
        title.skip(1)
    } else {
        none
    };
    lemma_lines_with_images(line);
    assert(!inside.contains(')')) by {
        if inside.contains(')') {
            let k = choose|k: int| 0 <= k < inside.len() && inside[k] == ')';
            if k < url.len() {
                assert(inside[k] == url[k]);
            } else {
                assert(title.contains(title[k - url.len()]));
            }
        }
    }
    assert(none + head =~= head);
    lemma_image_in_text(none, head, alt, inside, tail);
    lemma_text_behind_images(line, n);
    assert(line.skip(n) =~= tail);
    lemma_bare_title(url, title);
    assert(line_parts(line) =~= seq![Part::Text(head + seq!['!', '['] + alt + seq![']', '('])]
        + seq![url_part(url)] + seq![Part::Text(title + seq![')'])] + seq![Part::Text(tail)]);
}

proof fn lemma_bare_title(url: Seq<char>, title: Seq<char>)
    requires
        forall|i: int| 0 <= i < url.len() ==> !is_space(#[trigger] url[i]),
        title.len() > 0 ==> title.len() > 1 && title[0] == ' ' && !is_space(title[1]) && !is_space(
            title.last(),
        ),
    ensures
        url_and_title(url + title).0 == url,
        spaced_title(url_and_title(url + title).1) == title,
{
    let none = Seq::<char>::empty();
    let bare = if title.len() > 0 {
        title.skip(1)
    } else {
        none
    };
    assert(is_blank(seq![' '])) by {
        assert(is_space(' '));
    }
    lemma_urls_and_titles(url, seq![' '], bare, none);
    if title.len() > 0 {
        assert(url + seq![' '] + bare + none =~= url + title);
    } else {
        assert(url + title =~= url);
    }
    assert(spaced_title(bare) =~= title);
}

proof fn lemma_last_parts_joined(
    first: Seq<char>,
    url: Seq<char>,
    a: Seq<char>,
    b: Seq<char>,
    urls: Seq<Seq<char>>,
)
    requires
        urls.len() == uris(seq![url_part(url)]).len(),
    ensures
        ({
            let p = seq![Part::Text(first)] + seq![url_part(url)];
            let four = p + seq![Part::Text(a)] + seq![Part::Text(b)];
            let three = p + seq![Part::Text(a + b)];
            uris(four) == uris(three) && uris(three) == uris(seq![url_part(url)]) && filled(four, urls)
                == filled(three, urls)
        }),
{
    let none = Seq::<char>::empty();
    let no_urls = Seq::<Seq<char>>::empty();
    let p0 = seq![Part::Text(first)];
    let p1 = seq![url_part(url)];
    let pa = seq![Part::Text(a)];
    let pb = seq![Part::Text(b)];
    let pc = seq![Part::Text(a + b)];
    lemma_filling(first, none);
    lemma_filling(a, none);
    lemma_filling(b, none);
    lemma_filling(a + b, none);
    lemma_uris_of_both(p0, p1);
    lemma_uris_of_both(p0 + p1, pa);
    lemma_uris_of_both(p0 + p1 + pa, pb);
    lemma_uris_of_both(p0 + p1, pc);
    assert(no_urls + uris(p1) =~= uris(p1) && uris(p1) + no_urls =~= uris(p1));
    assert(no_urls + urls =~= urls && urls + no_urls =~= urls);
    lemma_filled_both(p0 + p1, pa, urls, no_urls);
    lemma_filled_both(p0 + p1 + pa, pb, urls, no_urls);
    lemma_filled_both(p0 + p1, pc, urls, no_urls);
    let x = filled(p0 + p1, urls);
    assert(x + a + b =~= x + (a + b));
}

/// Where a text is one line with one image, the URL of the image is replaced by that of its file
/// if it is a local path, and kept if it is not. All else is kept.
#[verifier::rlimit(40)]
pub proof fn lemma_one_image_is_resolved(
    head: Seq<char>,
    alt: Seq<char>,
    url: Seq<char>,
    title: Seq<char>,
    tail: Seq<char>,
    dir: Seq<char>,
    out: Seq<char>,
) -> (target: Seq<char>)
    requires
        ({
            let line = head + seq!['!', '['] + alt + seq![']', '('] + (url + title) + seq![')']
                + tail;
            let n = (head.len() + alt.len() + url.len() + title.len() + 5) as int;
            &&& is_piece(line)
            &&& is_no_definition(line)
            &&& has_no_image(line, 0, head.len() as int)
            &&& has_no_image(line, n, line.len() as int)
            &&& is_resolved(line, dir, out)
        }),
        head.len() > 0 ==> head.last() != '\\',
        !alt.contains(']'),
        url.len() > 0,
        forall|i: int| 0 <= i < url.len() ==> !is_space(#[trigger] url[i]) && url[i] != ')',
        title.len() > 0 ==> title.len() > 1 && title[0] == ' ' && !is_space(title[1]) && !is_space(
            title.last(),
        ),
        !title.contains(')'),
    ensures
        is_local(url) ==> is_file_url_of(url, dir, target),
        !is_local(url) ==> target == url,
        out == head + seq!['!', '['] + alt + seq![']', '('] + target + title + seq![')'] + tail,
{
    let inside = url + title;
    let line = head + seq!['!', '['] + alt + seq![']', '('] + inside + seq![')'] + tail;
    lemma_parts_of_line(line);
    lemma_parts_of_one_image(head, alt, url, title, tail);
    let first = head + seq!['!', '['] + alt + seq![']', '('];
    let a = title + seq![')'];
    let p = seq![Part::Text(first)] + seq![url_part(url)];
    let three = p + seq![Part::Text(a + tail)];
    let paths = uris(parts_of(line));
    let urls = choose|urls: Seq<Seq<char>>|
        urls.len() == paths.len() && (forall|k: int|
            0 <= k < urls.len() ==> is_file_url_of(paths[k], dir, #[trigger] urls[k])) && out
            == #[trigger] filled(parts_of(line), urls);
    lemma_count_of_uris(first, url, a, tail);
    lemma_last_parts_joined(first, url, a, tail, urls);
    let target = lemma_three_parts_filled(first, url, a + tail, dir, urls);
    assert(out == first + target + (a + tail));
    assert(out =~= head + seq!['!', '['] + alt + seq![']', '('] + target + title + seq![')'] + tail);
    target
}

proof fn lemma_count_of_uris(first: Seq<char>, url: Seq<char>, a: Seq<char>, b: Seq<char>)
    ensures
        uris(
            seq![Part::Text(first)] + seq![url_part(url)] + seq![Part::Text(a)] + seq![
                Part::Text(b),
            ],
        ) == uris(seq![url_part(url)]),
{
    lemma_last_parts_joined(first, url, a, b, uris(seq![url_part(url)]));
}

proof fn lemma_three_parts_filled(
    first: Seq<char>,
    url: Seq<char>,
    last: Seq<char>,
    dir: Seq<char>,
    urls: Seq<Seq<char>>,
) -> (target: Seq<char>)
    requires
        urls.len() == uris(seq![url_part(url)]).len(),
        forall|k: int|
            0 <= k < urls.len() ==> is_file_url_of(
                uris(seq![url_part(url)])[k],
                dir,
                #[trigger] urls[k],
            ),
    ensures
        is_local(url) ==> is_file_url_of(url, dir, target),
        !is_local(url) ==> target == url,
        filled(seq![Part::Text(first)] + seq![url_part(url)] + seq![Part::Text(last)], urls) == first
            + target + last,
{
    let p0 = seq![Part::Text(first)];
    let p1 = seq![url_part(url)];
    let p2 = seq![Part::Text(last)];
    let none = Seq::<char>::empty();
    let no_urls = Seq::<Seq<char>>::empty();
    lemma_filling(first, none);
    lemma_filling(last, none);
    lemma_filling(url, none);
    let target = if is_local(url) {
        urls[0]
    } else {
        url
    };
    lemma_filling(url, target);
    assert(urls =~= if is_local(url) {
        seq![target]
    } else {
        no_urls
    });
    assert(no_urls + urls =~= urls && urls + no_urls =~= urls);
    lemma_uris_of_both(p0, p1);
    assert(uris(p0 + p1).len() == urls.len());
    lemma_filled_both(p0, p1, no_urls, urls);
    lemma_filled_both(p0 + p1, p2, urls, no_urls);
    assert(filled(p1, urls) == target);
    target
}

#[verifier::rlimit(40)]
proof fn lemma_parts_of_definition(
    indent: Seq<char>,
    id: Seq<char>,
    space: Seq<char>,
    url: Seq<char>,
    title: Seq<char>,
    end: Seq<char>,
)
    requires
        is_piece(indent + seq!['['] + id + seq![']', ':'] + space + (url + title) + end),
        end == seq!['\n'] || end == seq!['\r', '\n'] || end == Seq::<char>::empty(),
        is_blank(indent),
        is_blank(space),
        forall|k: int| 0 <= k < id.len() ==> #[trigger] id[k] != ']',
        forall|i: int| 0 <= i < url.len() ==> !is_space(#[trigger] url[i]),
        title.len() > 0 ==> title.len() > 1 && title[0] == ' ' && !is_space(title[1]) && !is_space(
            title.last(),
        ),
        is_local(url),
    ensures
        line_parts(indent + seq!['['] + id + seq![']', ':'] + space + (url + title) + end) == seq![
            Part::Text(indent + seq!['['] + id + seq![']', ':', ' ']),
        ] + seq![url_part(url)] + seq![Part::Text(title + end)],
{
    let inside = url + title;
    let t = seq!['['] + id + seq![']', ':'] + space + inside + end;
    let line = indent + seq!['['] + id + seq![']', ':'] + space + inside + end;
    let e = 1 + id.len() as int;
    let rest = t.skip(e + 2);
    lemma_definition_regrouped(indent, id, space, inside, end);
    lemma_trimmed_start(indent, t);
    lemma_end_of_id(id, space + inside + end);
    lemma_content_of_definition(line, space + inside, url, title, space, end);
    assert(inside[0] == url[0]);
    assert(!is_space(url[0]));
    lemma_trimmed_start(space, inside);
    lemma_bare_title(url, title);
    lemma_parts_of_reference(line, t, e, url);
}

#[verifier::rlimit(40)]
proof fn lemma_definition_regrouped(
    indent: Seq<char>,
    id: Seq<char>,
    space: Seq<char>,
    inside: Seq<char>,
    end: Seq<char>,
)
    ensures
        ({
            let t = seq!['['] + id + seq![']', ':'] + space + inside + end;
            let line = indent + seq!['['] + id + seq![']', ':'] + space + inside + end;
            let e = 1 + id.len() as int;
            &&& line == indent + t
            &&& t.len() > 0
            &&& t[0] == '['
            &&& t == seq!['['] + id + seq![']', ':'] + (space + inside + end)
            &&& t.skip(e + 2) == space + inside + end
            &&& line.len() >= (space + inside).len() + end.len()
            &&& line.skip(line.len() - end.len() - (space + inside).len()) == space + inside + end
            &&& line.take(line.len() - t.len() + e + 2).push(' ') == indent + seq!['['] + id + seq![
                ']',
                ':',
                ' ',
            ]
        }),
{
    let t = seq!['['] + id + seq![']', ':'] + space + inside + end;
    let line = indent + seq!['['] + id + seq![']', ':'] + space + inside + end;
    let e = 1 + id.len() as int;
    assert(line =~= indent + t);
    assert(t =~= seq!['['] + id + seq![']', ':'] + (space + inside + end));
    assert(t.skip(e + 2) =~= space + inside + end);
    assert(line.skip(line.len() - end.len() - (space + inside).len()) =~= space + inside + end);
    assert(line.take(line.len() - t.len() + e + 2).push(' ') =~= indent + seq!['['] + id + seq![
        ']',
        ':',
        ' ',
    ]);
}

proof fn lemma_parts_of_reference(line: Seq<char>, t: Seq<char>, e: int, url: Seq<char>)
    requires
        trim_start(line) == t,
        t.len() > 0,
        t[0] == '[',
        find_pair(t, 0, ']', ':') == Some(e),
        url_and_title(trim_start(line_body(t.skip(e + 2)))).0 == url,
        is_local(url),
    ensures
        line_parts(line) == seq![Part::Text(line.take(line.len() - t.len() + e + 2).push(' '))]
            + seq![url_part(url)] + seq![
            Part::Text(
                spaced_title(url_and_title(trim_start(line_body(t.skip(e + 2)))).1) + line_ending(
                    t.skip(e + 2),
                ),
            ),
        ],
{
    assert(line_parts(line) =~= seq![
        Part::Text(line.take(line.len() - t.len() + e + 2).push(' ')),
    ] + seq![url_part(url)] + seq![
        Part::Text(
            spaced_title(url_and_title(trim_start(line_body(t.skip(e + 2)))).1) + line_ending(
                t.skip(e + 2),
            ),
        ),
    ]);
}

proof fn lemma_end_of_id(id: Seq<char>, rest: Seq<char>)
    requires
        forall|k: int| 0 <= k < id.len() ==> #[trigger] id[k] != ']',
    ensures
        find_pair(seq!['['] + id + seq![']', ':'] + rest, 0, ']', ':') == Some(1 + id.len() as int),
{
    let t = seq!['['] + id + seq![']', ':'] + rest;
    let e = 1 + id.len() as int;
    lemma_find_pair(t, 0, ']', ':');
    assert(t[e] == ']' && t[e + 1] == ':');
    assert forall|k: int| 0 <= k < e implies #[trigger] t[k] != ']' by {
        if k > 0 {
            assert(t[k] == id[k - 1]);
        }
    }
    match find_pair(t, 0, ']', ':') {
        Some(f) => {
            assert(t[f] == ']');
            if f > e {
                assert(t[e + 1] == ':');
            }
        },
        None => {
            assert(t[e + 1] == ':');
        },
    }
}

proof fn lemma_content_of_definition(
    line: Seq<char>,
    content: Seq<char>,
    url: Seq<char>,
    title: Seq<char>,
    space: Seq<char>,
    end: Seq<char>,
)
    requires
        is_piece(line),
        content == space + (url + title),
        line.len() >= content.len() + end.len(),
        line.skip(line.len() - end.len() - content.len()) == content + end,
        end == seq!['\n'] || end == seq!['\r', '\n'] || end == Seq::<char>::empty(),
        url.len() > 0,
        forall|i: int| 0 <= i < url.len() ==> !is_space(#[trigger] url[i]),
        title.len() > 0 ==> !is_space(title.last()),
    ensures
        line_body(content + end) == content,
        line_ending(content + end) == end,
{
    let at = line.len() - end.len() - content.len();
    assert(!is_space(content.last())) by {
        if title.len() > 0 {
            assert(content.last() == title.last());
        } else {
            assert(content.last() == url.last());
            assert(!is_space(url[url.len() - 1]));
        }
    }
    assert(is_space('\n') && is_space('\r'));
    assert(!content.contains('\n')) by {
        if content.contains('\n') {
            let k = choose|k: int| 0 <= k < content.len() && content[k] == '\n';
            assert(line.skip(at)[k] == line[at + k]);
            assert((content + end)[k] == content[k]);
            assert(k != content.len() - 1);
        }
    }
    lemma_line_endings(content);
    if end.len() == 0 {
        assert(content + end =~= content);
    }
}

/// In a line `[id]: url title` the URL is replaced by that of its file where it is a local path,
/// and the title stays behind it.
pub proof fn lemma_definition_is_resolved(
    indent: Seq<char>,
    id: Seq<char>,
    space: Seq<char>,
    url: Seq<char>,
    title: Seq<char>,
    end: Seq<char>,
    dir: Seq<char>,
    out: Seq<char>,
) -> (target: Seq<char>)
    requires
        ({
            let line = indent + seq!['['] + id + seq![']', ':'] + space + (url + title) + end;
            &&& is_piece(line)
            &&& is_resolved(line, dir, out)
        }),
        end == seq!['\n'] || end == seq!['\r', '\n'] || end == Seq::<char>::empty(),
        is_blank(indent),
        is_blank(space),
        forall|k: int| 0 <= k < id.len() ==> #[trigger] id[k] != ']',
        forall|i: int| 0 <= i < url.len() ==> !is_space(#[trigger] url[i]),
        title.len() > 0 ==> title.len() > 1 && title[0] == ' ' && !is_space(title[1]) && !is_space(
            title.last(),
        ),
        is_local(url),
    ensures
        is_file_url_of(url, dir, target),
        out == indent + seq!['['] + id + seq![']', ':', ' '] + target + title + end,
{
    let line = indent + seq!['['] + id + seq![']', ':'] + space + (url + title) + end;
    lemma_parts_of_line(line);
    lemma_parts_of_definition(indent, id, space, url, title, end);
    let first = indent + seq!['['] + id + seq![']', ':', ' '];
    let last = title + end;
    let paths = uris(parts_of(line));
    let urls = choose|urls: Seq<Seq<char>>|
        urls.len() == paths.len() && (forall|k: int|
            0 <= k < urls.len() ==> is_file_url_of(paths[k], dir, #[trigger] urls[k])) && out
            == #[trigger] filled(parts_of(line), urls);
    lemma_last_parts_joined(first, url, last, seq![], uris(seq![url_part(url)]));
    assert(last + seq![] =~= last);
    let target = lemma_three_parts_filled(first, url, last, dir, urls);
    assert(out =~= first + target + title + end);
    target
}

/// A URL is the text of a path behind `file://`, with a slash for each backslash and one slash at
/// least before it.
pub proof fn lemma_urls_of_paths(path: Seq<char>, k: int)
    requires
        0 <= k < path.len(),
    ensures
        ({
            let url = file_url(path);
            let n = url.len() - path.len();
            &&& path[0] == '/' || path[0] == '\\' ==> url.take(n) == seq![
                'f', 'i', 'l', 'e', ':', '/', '/',
            ]
            &&& path[0] != '/' && path[0] != '\\' ==> url.take(n) == seq![
                'f', 'i', 'l', 'e', ':', '/', '/', '/',
            ]
            &&& path[k] == '\\' ==> url[n + k] == '/'
            &&& path[k] != '\\' ==> url[n + k] == path[k]
        }),
{
    reveal_strlit("file://");
    reveal_strlit("file:///");
    let url = file_url(path);
    let n = url.len() - path.len();
    assert(slashed(path).len() == path.len());
    assert(slashed(path)[0] == if path[0] == '\\' { '/' } else { path[0] });
    assert(url.take(n) =~= if path[0] == '/' || path[0] == '\\' {
        seq!['f', 'i', 'l', 'e', ':', '/', '/']
    } else {
        seq!['f', 'i', 'l', 'e', ':', '/', '/', '/']
    });
}

/// A relative path in a directory has the URL of the directory, a slash, and the path.
pub proof fn lemma_url_in_a_directory(path: Seq<char>, dir: Seq<char>, url: Seq<char>)
    requires
        is_file_url_of(path, dir, url),
        path.len() > 0,
        path[0] != '/',
        !path.contains('\\'),
        !path.contains(':'),
        !is_space(path[0]),
        !is_space(path.last()),
        dir.len() > 0,
        !dir.contains('\\'),
        dir.last() != '/',
        dir.last() != ':',
        dir.len() > 1 ==> !(dir[0] == '/' && dir[1] == '/'),
    ensures
        dir[0] == '/' ==> url == seq!['f', 'i', 'l', 'e', ':', '/', '/'] + dir + seq!['/'] + path,
        dir[0] != '/' ==> url == seq!['f', 'i', 'l', 'e', ':', '/', '/', '/'] + dir + seq!['/']
            + path,
{
    reveal_strlit("file://");
    reveal_strlit("file:///");
    lemma_nothing_to_trim(path);
    assert(path.contains(path[0]));
    assert(dir.contains(dir[0]) && dir.contains(dir.last()));
    assert(dir.len() > 1 ==> dir.contains(dir[1]));
    lemma_plain_file_url(path, dir, url);
    let full = plain_join(dir, path);
    assert(full =~= dir + seq!['/'] + path);
    assert forall|k: int| 0 <= k < full.len() implies full[k] != '\\' by {
        if k < dir.len() {
            assert(dir.contains(dir[k]));
        } else if k > dir.len() {
            assert(path.contains(path[k - dir.len() - 1]));
        }
    }
    assert(slashed(full) =~= full);
    if dir[0] == '/' {
        assert(url =~= seq!['f', 'i', 'l', 'e', ':', '/', '/'] + dir + seq!['/'] + path);
    } else {
        assert(url =~= seq!['f', 'i', 'l', 'e', ':', '/', '/', '/'] + dir + seq!['/'] + path);
    }
}

} // verus!
