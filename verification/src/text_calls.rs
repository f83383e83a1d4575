//! What calls return of links, images and figures, stated of their arguments and results.
use crate::caption_laws::{
    lemma_expanding_a_line, lemma_expanding_both, lemma_figures_are_shown,
    lemma_figures_are_titled_images, lemma_references, lemma_titled_images_are_figures,
    titled_image,
};
use crate::documents::{document_text, viewer_text};
use crate::figure_laws::lemma_escaping_both;
use crate::figures::{
    escape_html, expand_figures_html, expand_figures_md, figure_of, html_escaped, parse_figure_line,
    stars_escaped,
};
use crate::images::{
    has_uri_scheme, is_file_url_of, is_local, resolve_image_uris, to_file_url, url_of_path,
};
use crate::lines::{ends_line, is_piece, joined, lines};
use crate::link_laws::{has_fence, is_plain, is_target, lemma_fences, lemma_link_in_a_line};
use crate::links::{
    anchors_of, in_code, lemma_unresolved_links_stay, rewrite_md_links, rewritten,
    rewritten_lines, TextMap,
};
use crate::text::is_space;
use crate::text_laws::is_blank;
use crate::uri_laws::{
    has_no_image, is_no_definition, lemma_known_schemes, lemma_one_image_is_resolved,
    lemma_paths_are_local, lemma_url_in_a_directory, lemma_urls_of_paths,
};
use vstd::prelude::*;

verus! {

proof fn lemma_no_code_before(ls: Seq<Seq<char>>, i: int)
    requires
        0 <= i <= ls.len(),
        forall|j: int| 0 <= j < i ==> !has_fence(#[trigger] ls[j]),
    ensures
        !in_code(ls, i),
    decreases i,
{
    if i > 0 {
        lemma_no_code_before(ls, i - 1);
        assert(!has_fence(ls[i - 1]));
        lemma_fences(ls[i - 1]);
    }
}

/// A link to a document of the book, on any line of a text that stands before all blocks of code,
/// is a link to the place of that document in what `rewrite_md_links` returns. The number of lines
/// stays the same, and the rest of the line stays as it is.
pub proof fn lemma_call_rewrites_links(
    content: &str,
    resolved: &TextMap,
    path_map: &TextMap,
    out: String,
    i: int,
    head: Seq<char>,
    path: Seq<char>,
    place: Seq<char>,
    tail: Seq<char>,
) -> (outs: Seq<Seq<char>>)
    requires
        call_ensures(rewrite_md_links, (content, resolved, path_map), out),
        0 <= i < lines(content@).len(),
        forall|j: int| 0 <= j <= i ==> !has_fence(#[trigger] lines(content@)[j]),
        lines(content@)[i] == head + (seq![']', '('] + (path + place) + seq![')']) + tail,
        is_plain(lines(content@)[i], 0, head.len() as int),
        is_plain(
            lines(content@)[i],
            (head.len() + path.len() + place.len() + 3) as int,
            lines(content@)[i].len() as int,
        ),
        head.contains('['),
        is_target(path + place),
        !path.contains('#'),
        path.len() >= 3,
        path[path.len() - 3] == '.',
        path[path.len() - 2] == 'm',
        path[path.len() - 1] == 'd',
        place.len() > 0 ==> place[0] == '#',
        resolved@.contains_key(path),
        path_map@.contains_key(resolved@[path]),
    ensures
        out@ == joined(outs, '\n'),
        outs.len() == lines(content@).len(),
        outs[i] == head + seq![']', '(', '#'] + path_map@[resolved@[path]] + seq![')'] + tail,
{
    let ls = lines(content@);
    let anchors = anchors_of(resolved@, path_map@);
    let outs = rewritten_lines(ls, anchors);
    lemma_no_code_before(ls, i);
    assert(!has_fence(ls[i]));
    lemma_fences(ls[i]);
    assert(outs[i] == rewritten(ls[i], 0, anchors));
    lemma_link_in_a_line(head, path, place, tail, resolved@, path_map@);
    let one = seq![ls[i]];
    assert(!in_code(one, 0));
    assert(rewritten_lines(one, anchors)[0] == rewritten(one[0], 0, anchors));
    outs
}

/// Where no link of a text leads into the book, `rewrite_md_links` returns its lines as they are,
/// and a fence is returned as it is wherever links lead.
pub proof fn lemma_call_keeps_lines(
    content: &str,
    resolved: &TextMap,
    path_map: &TextMap,
    out: String,
    i: int,
) -> (outs: Seq<Seq<char>>)
    requires
        call_ensures(rewrite_md_links, (content, resolved, path_map), out),
    ensures
        out@ == joined(outs, '\n'),
        outs.len() == lines(content@).len(),
        (forall|path: Seq<char>|
            resolved@.contains_key(path) ==> !path_map@.contains_key(#[trigger] resolved@[path]))
            ==> outs == lines(content@),
        0 <= i < outs.len() && has_fence(lines(content@)[i]) ==> outs[i] == lines(content@)[i],
{
    let ls = lines(content@);
    let anchors = anchors_of(resolved@, path_map@);
    if forall|path: Seq<char>|
        resolved@.contains_key(path) ==> !path_map@.contains_key(#[trigger] resolved@[path]) {
        assert(anchors =~= Map::empty());
        lemma_unresolved_links_stay(ls);
    }
    if 0 <= i < ls.len() {
        lemma_fences(ls[i]);
    }
    rewritten_lines(ls, anchors)
}

/// `has_uri_scheme` knows four schemes and the `#` of a place in the document, and no other URI
/// carries one.
pub proof fn lemma_call_knows_schemes(uri: &str, b: bool)
    requires
        call_ensures(has_uri_scheme, (uri,), b),
    ensures
        uri@.len() > 0 && uri@[0] != '#' && !uri@.contains(':') ==> !b,
        uri@.len() > 0 && uri@[0] == '#' ==> b,
        uri@.len() >= 5 && uri@.take(5) == seq!['d', 'a', 't', 'a', ':'] ==> b,
        uri@.len() >= 7 && uri@.take(7) == seq!['h', 't', 't', 'p', ':', '/', '/'] ==> b,
        uri@.len() >= 7 && uri@.take(7) == seq!['f', 'i', 'l', 'e', ':', '/', '/'] ==> b,
        uri@.len() >= 8 && uri@.take(8) == seq!['h', 't', 't', 'p', 's', ':', '/', '/'] ==> b,
        b ==> uri@.len() > 0 && (uri@[0] == '#' || uri@.contains(':')),
{
    let u = uri@;
    if u.len() > 0 && u[0] != '#' && !u.contains(':') {
        lemma_paths_are_local(u);
    }
    if b && u.len() > 0 && u[0] != '#' && !u.contains(':') {
        lemma_paths_are_local(u);
    }
    lemma_known_schemes(u, u.skip(1));
    if u.len() > 0 {
        assert(seq![u[0]] + u.skip(1) =~= u);
    } else {
        assert(u =~= seq![]);
        reveal_strlit("http://");
        reveal_strlit("https://");
        reveal_strlit("file://");
        reveal_strlit("data:");
    }
    if u.len() >= 5 {
        lemma_known_schemes(u, u.skip(5));
        assert(u.take(5) + u.skip(5) =~= u);
    }
    if u.len() >= 7 {
        lemma_known_schemes(u, u.skip(7));
        assert(u.take(7) + u.skip(7) =~= u);
    }
    if u.len() >= 8 {
        lemma_known_schemes(u, u.skip(8));
        assert(u.take(8) + u.skip(8) =~= u);
    }
}

/// `to_file_url` returns the URL of a relative path in a directory: that of the directory, a slash,
/// and the path.
pub proof fn lemma_call_returns_urls(path: &str, base_dir: &str, url: String)
    requires
        call_ensures(to_file_url, (path, base_dir), url),
        path@.len() > 0,
        path@[0] != '/',
        !path@.contains('\\'),
        !path@.contains(':'),
        !is_space(path@[0]),
        !is_space(path@.last()),
        base_dir@.len() > 0,
        !base_dir@.contains('\\'),
        base_dir@.last() != '/',
        base_dir@.last() != ':',
        base_dir@.len() > 1 ==> !(base_dir@[0] == '/' && base_dir@[1] == '/'),
    ensures
        base_dir@[0] == '/' ==> url@ == seq!['f', 'i', 'l', 'e', ':', '/', '/'] + base_dir@ + seq![
            '/',
        ] + path@,
        base_dir@[0] != '/' ==> url@ == seq!['f', 'i', 'l', 'e', ':', '/', '/', '/'] + base_dir@
            + seq!['/'] + path@,
{
    lemma_url_in_a_directory(path@, base_dir@, url@);
}

/// `url_of_path` returns the text of a path, with a slash for each backslash, behind `file://` and
/// at least one slash.
pub proof fn lemma_call_returns_url_of_path(path: &str, url: String, k: int)
    requires
        call_ensures(url_of_path, (path,), url),
        0 <= k < path@.len(),
    ensures
        ({
            let n = url@.len() - path@.len();
            &&& n == if path@[0] == '/' || path@[0] == '\\' {
                7int
            } else {
                8
            }
            &&& path@[k] == '\\' ==> url@[n + k] == '/'
            &&& path@[k] != '\\' ==> url@[n + k] == path@[k]
        }),
{
    lemma_urls_of_paths(path@, k);
    assert(url@.take(url@.len() - path@.len()).len() == url@.len() - path@.len());
}

/// The path of an image on a line is the URL of its file in what `resolve_image_uris` returns: that
/// of the directory, a slash, and the path. The rest of the line stays as it is.
pub proof fn lemma_call_resolves_images(
    content: &str,
    base_dir: &str,
    out: String,
    head: Seq<char>,
    alt: Seq<char>,
    path: Seq<char>,
    title: Seq<char>,
    tail: Seq<char>,
)
    requires
        call_ensures(resolve_image_uris, (content, base_dir), out),
        content@ == head + seq!['!', '['] + alt + seq![']', '('] + (path + title) + seq![')'] + tail,
        is_piece(content@),
        is_no_definition(content@),
        has_no_image(content@, 0, head.len() as int),
        has_no_image(
            content@,
            (head.len() + alt.len() + path.len() + title.len() + 5) as int,
            content@.len() as int,
        ),
        head.len() > 0 ==> head.last() != '\\',
        !alt.contains(']'),
        path.len() > 0,
        path[0] != '/',
        path[0] != '#',
        !path.contains('\\'),
        !path.contains(':'),
        forall|i: int| 0 <= i < path.len() ==> !is_space(#[trigger] path[i]) && path[i] != ')',
        title.len() > 0 ==> title.len() > 1 && title[0] == ' ' && !is_space(title[1]) && !is_space(
            title.last(),
        ),
        !title.contains(')'),
        base_dir@.len() > 1,
        !base_dir@.contains('\\'),
        base_dir@[0] == '/',
        base_dir@[1] != '/',
        base_dir@.last() != '/',
        base_dir@.last() != ':',
    ensures
        out@ == head + seq!['!', '['] + alt + seq![']', '('] + (seq![
            'f',
            'i',
            'l',
            'e',
            ':',
            '/',
            '/',
        ] + base_dir@ + seq!['/'] + path) + title + seq![')'] + tail,
{
    let target = lemma_one_image_is_resolved(head, alt, path, title, tail, base_dir@, out@);
    lemma_paths_are_local(path);
    lemma_url_in_a_directory(path, base_dir@, target);
}

/// `parse_figure_line` returns exactly the alternative text, the URL and the title of an image that
/// stands alone on its line, and nothing of a line that is no such image.
#[verifier::rlimit(40)]
pub proof fn lemma_call_finds_figures(
    line: &str,
    out: Option<(&str, &str, String)>,
    before: Seq<char>,
    alt: Seq<char>,
    url: Seq<char>,
    a: Seq<char>,
    quote: char,
    caption: Seq<char>,
    b: Seq<char>,
    behind: Seq<char>,
)
    requires
        call_ensures(parse_figure_line, (line,), out),
    ensures
        line@ == before + titled_image(alt, url, a, quote, caption, b) + behind && is_blank(before)
            && is_blank(a) && is_blank(b) && is_blank(behind) && a.len() > 0 && (quote == '"'
            || quote == '\'') && !alt.contains('[') && !alt.contains(']') && url.len() > 0 && (
        forall|i: int| 0 <= i < url.len() ==> !is_space(#[trigger] url[i])) && !url.contains('(')
            && !url.contains(')') && !caption.contains(quote) ==> (out matches Some((x, y, z)) && x@
            == alt && y@ == url && z@ == caption),
        out is Some ==> line@.contains('!') && line@.contains('[') && line@.contains(']')
            && line@.contains('(') && line@.contains(')'),
{
    if line@ == before + titled_image(alt, url, a, quote, caption, b) + behind && is_blank(before)
        && is_blank(a) && is_blank(b) && is_blank(behind) && a.len() > 0 && (quote == '"' || quote
        == '\'') && !alt.contains('[') && !alt.contains(']') && url.len() > 0 && (forall|i: int|
        0 <= i < url.len() ==> !is_space(#[trigger] url[i])) && !url.contains('(') && !url.contains(
        ')',
    ) && !caption.contains(quote) {
        lemma_titled_images_are_figures(before, alt, url, a, quote, caption, b, behind);
    }
    if out is Some {
        lemma_figures_are_titled_images(line@);
        let (alt, url, caption) = figure_of(line@)->0;
        let (before, a, quote, b, behind) = choose|
            before: Seq<char>,
            a: Seq<char>,
            quote: char,
            b: Seq<char>,
            behind: Seq<char>,
        |
            is_blank(before) && is_blank(a) && is_blank(b) && is_blank(behind) && a.len() > 0 && (
            quote == '"' || quote == '\'') && line@ == #[trigger] (before + titled_image(
                alt,
                url,
                a,
                quote,
                caption,
                b,
            ) + behind);
        let t = titled_image(alt, url, a, quote, caption, b);
        let n = before.len() as int;
        let e = 2 + alt.len() as int;
        assert(t[0] == '!' && t[1] == '[' && t[e] == ']' && t[e + 1] == '(' && t.last() == ')');
        assert(line@[n] == '!' && line@[n + 1] == '[' && line@[n + e] == ']' && line@[n + e + 1]
            == '(' && line@[n + t.len() - 1] == ')');
    }
}

/// The texts that `expand_figures_md` and `expand_figures_html` return of a line: the image and its
/// caption where it is a figure, and the line itself where it is none.
pub proof fn lemma_call_expands_figures(
    content: &str,
    md: String,
    html: String,
    body: Seq<char>,
    end: Seq<char>,
)
    requires
        call_ensures(expand_figures_md, (content,), md),
        call_ensures(expand_figures_html, (content,), html),
        content@ == body + end,
        content@.len() > 0,
        !body.contains('\n'),
        body.len() == 0 || body.last() != '\r',
        end == seq!['\n'] || end == seq!['\r', '\n'] || end == Seq::<char>::empty(),
    ensures
        figure_of(body) is None ==> md@ == content@ && html@ == content@,
        figure_of(body) matches Some((alt, url, caption)) ==> {
            let brk = if end.len() == 0 {
                seq!['\n']
            } else {
                end
            };
            &&& md@ == (seq!['!', '['] + alt + seq![']', '('] + url + seq![')']) + brk + brk + (seq![
                '*',
            ] + stars_escaped(caption) + seq!['*']) + end
            &&& html@ == brk + ("<figure><img src=\""@ + html_escaped(url) + "\" alt=\""@
                + html_escaped(alt) + "\"><figcaption>"@ + html_escaped(caption)
                + "</figcaption></figure>"@) + brk + brk
        },
{
    lemma_expanding_a_line(body, end);
}

/// What is returned of two texts, the first of which ends a line, is returned of the two in a row.
pub proof fn lemma_calls_expand_line_by_line(
    a: &str,
    b: &str,
    both: &str,
    md: (String, String, String),
    html: (String, String, String),
)
    requires
        both@ == a@ + b@,
        ends_line(a@),
        call_ensures(expand_figures_md, (a,), md.0),
        call_ensures(expand_figures_md, (b,), md.1),
        call_ensures(expand_figures_md, (both,), md.2),
        call_ensures(expand_figures_html, (a,), html.0),
        call_ensures(expand_figures_html, (b,), html.1),
        call_ensures(expand_figures_html, (both,), html.2),
    ensures
        md.2@ == md.0@ + md.1@,
        html.2@ == html.0@ + html.1@,
{
    lemma_expanding_both(a@, b@);
}

/// `escape_html` goes piece by piece, keeps all that is not special, and returns nothing that is.
#[verifier::rlimit(40)]
pub proof fn lemma_calls_escape(
    a: &str,
    b: &str,
    both: &str,
    x: String,
    y: String,
    z: String,
)
    requires
        both@ == a@ + b@,
        call_ensures(escape_html, (a,), x),
        call_ensures(escape_html, (b,), y),
        call_ensures(escape_html, (both,), z),
    ensures
        z@ == x@ + y@,
        !a@.contains('&') && !a@.contains('<') && !a@.contains('>') && !a@.contains('"')
            && !a@.contains('\'') ==> x@ == a@,
        a@ == seq!['<'] ==> x@ == seq!['&', 'l', 't', ';'],
        a@ == seq!['>'] ==> x@ == seq!['&', 'g', 't', ';'],
        a@ == seq!['&'] ==> x@ == seq!['&', 'a', 'm', 'p', ';'],
        a@ == seq!['"'] ==> x@ == seq!['&', 'q', 'u', 'o', 't', ';'],
        a@ == seq!['\''] ==> x@ == seq!['&', '#', '3', '9', ';'],
{
    lemma_escaping_both(a@, b@);
    let none = Seq::<char>::empty();
    lemma_references(none, '<');
    assert(none.push('<') =~= seq!['<'] && none.push('>') =~= seq!['>'] && none.push('&') =~= seq![
        '&',
    ] && none.push('"') =~= seq!['"'] && none.push('\'') =~= seq!['\'']);
    assert(html_escaped(none) =~= none);
    assert(none + seq!['&', 'l', 't', ';'] =~= seq!['&', 'l', 't', ';']);
    assert(none + seq!['&', 'g', 't', ';'] =~= seq!['&', 'g', 't', ';']);
    assert(none + seq!['&', 'a', 'm', 'p', ';'] =~= seq!['&', 'a', 'm', 'p', ';']);
    assert(none + seq!['&', 'q', 'u', 'o', 't', ';'] =~= seq!['&', 'q', 'u', 'o', 't', ';']);
    assert(none + seq!['&', '#', '3', '9', ';'] =~= seq!['&', '#', '3', '9', ';']);
    if !a@.contains('&') && !a@.contains('<') && !a@.contains('>') && !a@.contains('"')
        && !a@.contains('\'') {
        lemma_nothing_special(a@);
    }
}

proof fn lemma_nothing_special(s: Seq<char>)
    requires
        !s.contains('&') && !s.contains('<') && !s.contains('>') && !s.contains('"') && !s.contains(
            '\'',
        ),
    ensures
        html_escaped(s) == s,
    decreases s.len(),
{
    if s.len() > 0 {
        let front = s.drop_last();
        assert(s.contains(s.last()));
        assert forall|c: char| front.contains(c) implies s.contains(c) by {
            let k = choose|k: int| 0 <= k < front.len() && front[k] == c;
            assert(s[k] == c);
        }
        lemma_nothing_special(front);
        lemma_references(front, s.last());
        assert(front.push(s.last()) =~= s);
    } else {
        assert(s =~= seq![]);
        assert(html_escaped(s) =~= s);
    }
}

/// What `viewer_text` and `document_text` return of a line that is a figure: the image, which leads
/// to the file where its URL is a local path, and the caption.
pub proof fn lemma_call_shows_figures(
    content: &str,
    base_dir: &str,
    md: String,
    html: String,
    alt: Seq<char>,
    url: Seq<char>,
    quote: char,
    caption: Seq<char>,
) -> (targets: (Seq<char>, Seq<char>))
    requires
        call_ensures(viewer_text, (content, base_dir), md),
        call_ensures(document_text, (content, base_dir), html),
        content@ == titled_image(alt, url, seq![' '], quote, caption, seq![]) + seq!['\n'],
        quote == '"' || quote == '\'',
        !alt.contains('['),
        !alt.contains(']'),
        !alt.contains('\n'),
        url.len() > 0,
        forall|i: int| 0 <= i < url.len() ==> !is_space(#[trigger] url[i]),
        !url.contains('('),
        !url.contains(')'),
        !caption.contains(quote),
        !caption.contains(')'),
        !caption.contains('\n'),
    ensures
        is_local(url) ==> is_file_url_of(url, base_dir@, targets.0) && is_file_url_of(
            url,
            base_dir@,
            targets.1,
        ),
        !is_local(url) ==> targets.0 == url && targets.1 == url,
        md@ == (seq!['!', '['] + alt + seq![']', '('] + targets.0 + seq![')']) + seq!['\n'] + seq![
            '\n',
        ] + (seq!['*'] + stars_escaped(caption) + seq!['*']) + seq!['\n'],
        html@ == seq!['\n'] + ("<figure><img src=\""@ + html_escaped(targets.1) + "\" alt=\""@
            + html_escaped(alt) + "\"><figcaption>"@ + html_escaped(caption)
            + "</figcaption></figure>"@) + seq!['\n'] + seq!['\n'],
{
    let a = lemma_figures_are_shown(alt, url, quote, caption, base_dir@, false, md@);
    let b = lemma_figures_are_shown(alt, url, quote, caption, base_dir@, true, html@);
    (a, b)
}

} // verus!
