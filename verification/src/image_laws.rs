//! What holds of images whose URIs were resolved: it is done line by line, and once.
use crate::images::{
    file_url, filled, image_parts_at, inline_parts, is_file_url_of, is_local, is_resolved,
    lemma_file_url_shape, lemma_inline_progress, line_parts, parts_of, parts_of_lines,
    plain_urls, reference_parts, spaced_title, uris, url_and_title, Part,
};
use crate::lines::{
    ends_line, is_piece, lemma_one_piece, lemma_pieces_are_lines, lemma_pieces_of_both, pieces,
};
use crate::paths::{is_joined, is_separator, lemma_join_adds_separators, slashed};
use crate::text::{
    find_char, find_pair, find_space, is_space, lemma_find_char, lemma_find_pair, lemma_find_space,
    lemma_nothing_to_trim, lemma_trim_is_part, lemma_trim_start_is_tail, lemma_trimmed, trim,
    trim_start,
};
use vstd::prelude::*;

verus! {

/// The URIs of two runs of parts are those of the two in a row.
pub proof fn lemma_uris_of_both(p: Seq<Part<Seq<char>>>, q: Seq<Part<Seq<char>>>)
    ensures
        uris(p + q) == uris(p) + uris(q),
    decreases q.len(),
{
    if q.len() == 0 {
        assert(p + q =~= p);
        assert(uris(p) + uris(q) =~= uris(p));
    } else {
        lemma_uris_of_both(p, q.drop_last());
        assert((p + q).drop_last() =~= p + q.drop_last());
        assert(uris(p + q) =~= uris(p) + uris(q));
    }
}

/// The text of two runs of parts is that of the two in a row.
pub proof fn lemma_filled_both(
    p: Seq<Part<Seq<char>>>,
    q: Seq<Part<Seq<char>>>,
    u: Seq<Seq<char>>,
    v: Seq<Seq<char>>,
)
    requires
        u.len() == uris(p).len(),
        v.len() == uris(q).len(),
    ensures
        filled(p + q, u + v) == filled(p, u) + filled(q, v),
    decreases q.len(),
{
    if q.len() == 0 {
        assert(p + q =~= p);
        assert(u + v =~= u);
        assert(filled(p, u) + filled(q, v) =~= filled(p, u));
    } else {
        let front = q.drop_last();
        assert((p + q).drop_last() =~= p + front);
        match q.last() {
            Part::Text(t) => {
                lemma_filled_both(p, front, u, v);
            },
            Part::Uri(_) => {
                lemma_filled_both(p, front, u, v.drop_last());
                assert((u + v).drop_last() =~= u + v.drop_last());
            },
        }
        assert(filled(p + q, u + v) =~= filled(p, u) + filled(q, v));
    }
}

proof fn lemma_parts_of_both(a: Seq<Seq<char>>, b: Seq<Seq<char>>)
    ensures
        parts_of_lines(a + b) == parts_of_lines(a) + parts_of_lines(b),
    decreases b.len(),
{
    if b.len() == 0 {
        assert(a + b =~= a);
        assert(parts_of_lines(a) + parts_of_lines(b) =~= parts_of_lines(a));
    } else {
        lemma_parts_of_both(a, b.drop_last());
        assert((a + b).drop_last() =~= a + b.drop_last());
        assert(parts_of_lines(a + b) =~= parts_of_lines(a) + parts_of_lines(b));
    }
}

/// Each line is resolved on its own: of a text that ends a line, followed by another, the results
/// for the two in a row are a result.
pub proof fn lemma_resolving_both(
    a: Seq<char>,
    b: Seq<char>,
    dir: Seq<char>,
    out_a: Seq<char>,
    out_b: Seq<char>,
)
    requires
        ends_line(a),
        is_resolved(a, dir, out_a),
        is_resolved(b, dir, out_b),
    ensures
        is_resolved(a + b, dir, out_a + out_b),
{
    let p = parts_of(a);
    let q = parts_of(b);
    lemma_pieces_of_both(a, b);
    lemma_parts_of_both(pieces(a), pieces(b));
    lemma_uris_of_both(p, q);
    let u = choose|urls: Seq<Seq<char>>|
        urls.len() == uris(p).len() && (forall|k: int|
            0 <= k < urls.len() ==> is_file_url_of(uris(p)[k], dir, #[trigger] urls[k])) && out_a
            == #[trigger] filled(p, urls);
    let v = choose|urls: Seq<Seq<char>>|
        urls.len() == uris(q).len() && (forall|k: int|
            0 <= k < urls.len() ==> is_file_url_of(uris(q)[k], dir, #[trigger] urls[k])) && out_b
            == #[trigger] filled(q, urls);
    lemma_filled_both(p, q, u, v);
    let paths = uris(p + q);
    let urls = u + v;
    assert forall|k: int| 0 <= k < urls.len() implies is_file_url_of(
        paths[k],
        dir,
        #[trigger] urls[k],
    ) by {
        if k < u.len() {
            assert(urls[k] == u[k]);
        } else {
            assert(urls[k] == v[k - u.len()]);
            assert(is_file_url_of(uris(q)[k - u.len()], dir, v[k - u.len()]));
        }
    }
    assert(out_a + out_b == filled(parts_of(a + b), urls));
}

/// Each line is resolved on its own: what comes of a text that ends a line, followed by another,
/// is what comes of the two in a row.
pub proof fn lemma_resolved_in_a_row(a: Seq<char>, b: Seq<char>, dir: Seq<char>, out: Seq<char>)
    requires
        ends_line(a),
        is_resolved(a + b, dir, out),
    ensures
        exists|out_a: Seq<char>, out_b: Seq<char>|
            is_resolved(a, dir, out_a) && is_resolved(b, dir, out_b) && out == #[trigger] (out_a
                + out_b),
{
    let p = parts_of(a);
    let q = parts_of(b);
    lemma_pieces_of_both(a, b);
    lemma_parts_of_both(pieces(a), pieces(b));
    lemma_uris_of_both(p, q);
    let paths = uris(p + q);
    let urls = choose|urls: Seq<Seq<char>>|
        urls.len() == paths.len() && (forall|k: int|
            0 <= k < urls.len() ==> is_file_url_of(paths[k], dir, #[trigger] urls[k])) && out
            == #[trigger] filled(p + q, urls);
    let n = uris(p).len() as int;
    let u = urls.take(n);
    let v = urls.skip(n);
    assert(u + v =~= urls);
    lemma_filled_both(p, q, u, v);
    assert forall|k: int| 0 <= k < u.len() implies is_file_url_of(
        uris(p)[k],
        dir,
        #[trigger] u[k],
    ) by {
        assert(is_file_url_of(paths[k], dir, urls[k]));
    }
    assert forall|k: int| 0 <= k < v.len() implies is_file_url_of(
        uris(q)[k],
        dir,
        #[trigger] v[k],
    ) by {
        assert(is_file_url_of(paths[n + k], dir, urls[n + k]));
    }
    assert(is_resolved(a, dir, filled(p, u)));
    assert(is_resolved(b, dir, filled(q, v)));
    assert(out == filled(p, u) + filled(q, v));
}

/// What `resolve_image_uris` returns for ordinary relative paths in the ordinary directory `dir`.
pub open spec fn plainly_resolved(content: Seq<char>, dir: Seq<char>) -> Seq<char> {
    filled(parts_of(content), plain_urls(uris(parts_of(content)), dir))
}

/// Each line is resolved on its own, and so the results for ordinary paths stand in a row.
pub proof fn lemma_plainly_resolved_in_a_row(a: Seq<char>, b: Seq<char>, dir: Seq<char>)
    requires
        ends_line(a),
    ensures
        plainly_resolved(a + b, dir) == plainly_resolved(a, dir) + plainly_resolved(b, dir),
{
    let p = parts_of(a);
    let q = parts_of(b);
    lemma_pieces_of_both(a, b);
    lemma_parts_of_both(pieces(a), pieces(b));
    lemma_uris_of_both(p, q);
    lemma_filled_both(p, q, plain_urls(uris(p), dir), plain_urls(uris(q), dir));
    assert(plain_urls(uris(p + q), dir) =~= plain_urls(uris(p), dir) + plain_urls(uris(q), dir));
}

/// A text without whitespace and without closing parentheses.
pub open spec fn is_compact(s: Seq<char>) -> bool {
    forall|i: int| 0 <= i < s.len() ==> !is_space(#[trigger] s[i]) && s[i] != ')'
}

/// URLs that are left as they are.
pub open spec fn are_settled(urls: Seq<Seq<char>>) -> bool {
    forall|k: int| 0 <= k < urls.len() ==> is_compact(#[trigger] urls[k]) && !is_local(urls[k])
}

proof fn lemma_trim_keeps(s: Seq<char>)
    ensures
        forall|k: int| 0 <= k < trim(s).len() ==> s.contains(#[trigger] trim(s)[k]),
{
    lemma_trim_is_part(s);
    let (i, j) = choose|i: int, j: int|
        0 <= i <= j <= s.len() && trim(s) == #[trigger] s.subrange(i, j);
    assert forall|k: int| 0 <= k < trim(s).len() implies s.contains(#[trigger] trim(s)[k]) by {
        assert(trim(s)[k] == s[i + k]);
    }
}

proof fn lemma_trimmed_url(s: Seq<char>)
    requires
        is_compact(s),
    ensures
        is_compact(trim(s)),
{
    lemma_trim_keeps(s);
    assert forall|k: int| 0 <= k < trim(s).len() implies !is_space(#[trigger] trim(s)[k])
        && trim(s)[k] != ')' by {
        let c = trim(s)[k];
        assert(s.contains(c));
        let m = choose|m: int| 0 <= m < s.len() && s[m] == c;
        assert(!is_space(s[m]) && s[m] != ')');
    }
}

/// A title that stands in `inside`: it holds no closing parenthesis, and is trimmed.
spec fn is_title_in(inside: Seq<char>, title: Seq<char>) -> bool {
    &&& forall|i: int|
        0 <= i < title.len() ==> #[trigger] title[i] != ')' && inside.contains(title[i])
    &&& title.len() > 0 ==> !is_space(title[0]) && !is_space(title.last())
}

proof fn lemma_trimmed_title(inside: Seq<char>, at: int)
    requires
        0 <= at <= inside.len(),
        forall|i: int| 0 <= i < inside.len() ==> #[trigger] inside[i] != ')',
    ensures
        is_title_in(inside, trim(inside.skip(at))),
{
    let tail = inside.skip(at);
    let title = trim(tail);
    lemma_trimmed(tail);
    lemma_trim_keeps(tail);
    assert forall|i: int| 0 <= i < title.len() implies #[trigger] title[i] != ')'
        && inside.contains(title[i]) by {
        let c = title[i];
        assert(tail.contains(c));
        let m = choose|m: int| 0 <= m < tail.len() && tail[m] == c;
        assert(inside[at + m] == c);
    }
}

proof fn lemma_url_and_title(inside: Seq<char>)
    requires
        forall|i: int| 0 <= i < inside.len() ==> #[trigger] inside[i] != ')',
    ensures
        is_compact(url_and_title(inside).0),
        is_title_in(inside, url_and_title(inside).1),
{
    lemma_find_space(inside, 0);
    match find_space(inside, 0) {
        None => {
            assert(is_compact(inside));
            lemma_trimmed_url(inside);
        },
        Some(at) => {
            assert(is_compact(inside.take(at)));
            lemma_trimmed_url(inside.take(at));
            lemma_trimmed_title(inside, at);
        },
    }
}

proof fn lemma_url_and_title_again(url: Seq<char>, title: Seq<char>)
    requires
        is_compact(url),
        title.len() > 0 ==> !is_space(title[0]) && !is_space(title.last()),
    ensures
        url_and_title(url + spaced_title(title)) == (url, title),
{
    let inside = url + spaced_title(title);
    assert(trim(url) == url) by {
        lemma_nothing_to_trim(url);
    }
    lemma_find_space(inside, 0);
    let n = url.len() as int;
    if title.len() == 0 {
        assert(inside =~= url);
        assert(title =~= seq![]);
    } else {
        assert(inside[n] == ' ');
        assert(find_space(inside, 0) is Some);
        let at = find_space(inside, 0)->0;
        if at < n {
            assert(inside[at] == url[at]);
        }
        assert(at == n);
        assert(inside.take(n) =~= url);
        let tail = inside.skip(n);
        assert(tail =~= seq![' '] + title);
        assert(tail.skip(1) =~= title);
        assert(trim_start(tail) == trim_start(title));
        lemma_nothing_to_trim(title);
        assert(trim(tail) == trim(title));
    }
}

/// The place where `find_char` finds `c` first.
proof fn lemma_first_char(s: Seq<char>, from: int, c: char, at: int)
    requires
        0 <= from <= at < s.len(),
        s[at] == c,
        forall|j: int| from <= j < at ==> #[trigger] s[j] != c,
    ensures
        find_char(s, from, c) == Some(at),
{
    lemma_find_char(s, from, c);
}

proof fn lemma_no_char(s: Seq<char>, from: int, c: char)
    requires
        0 <= from,
        forall|j: int| from <= j < s.len() ==> #[trigger] s[j] != c,
    ensures
        find_char(s, from, c) is None,
{
    lemma_find_char(s, from, c);
}

/// The text of a line from the place `from` on, with its URIs replaced by `urls`.
spec fn rest_filled(line: Seq<char>, from: int, urls: Seq<Seq<char>>) -> Seq<char> {
    filled(inline_parts(line, from), urls)
}

/// From the place `k` on, `x` holds no URI to replace and is put together again as it is.
spec fn is_settled(x: Seq<char>, k: int) -> bool {
    uris(inline_parts(x, k)).len() == 0 && filled(inline_parts(x, k), seq![]) == x.skip(k)
}

proof fn lemma_text_before(text: Seq<char>, q: Seq<Part<Seq<char>>>, v: Seq<Seq<char>>)
    requires
        v.len() == uris(q).len(),
    ensures
        uris(seq![Part::Text(text)] + q) == uris(q),
        filled(seq![Part::Text(text)] + q, v) == text + filled(q, v),
{
    let p = seq![Part::Text(text)];
    assert(p.drop_last() =~= seq![]);
    assert(uris(p.drop_last()) =~= seq![]);
    assert(uris(p) =~= seq![]);
    assert(filled(p.drop_last(), seq![]) =~= seq![]);
    assert(filled(p, seq![]) =~= text);
    lemma_uris_of_both(p, q);
    lemma_filled_both(p, q, seq![], v);
    assert(uris(p) + uris(q) =~= uris(q));
    assert(Seq::<Seq<char>>::empty() + v =~= v);
}

/// A piece of an image: text, a URI or text in its place, and text.
proof fn lemma_image_before(
    first: Seq<char>,
    url: Seq<char>,
    local: bool,
    last: Seq<char>,
    q: Seq<Part<Seq<char>>>,
    v: Seq<Seq<char>>,
)
    requires
        v.len() == uris(q).len() + if local {
            1int
        } else {
            0
        },
    ensures
        ({
            let middle = if local {
                Part::Uri(url)
            } else {
                Part::Text(url)
            };
            let all = seq![Part::Text(first), middle, Part::Text(last)] + q;
            &&& uris(all) == if local {
                seq![url] + uris(q)
            } else {
                uris(q)
            }
            &&& filled(all, v) == if local {
                first + v[0] + last + filled(q, v.skip(1))
            } else {
                first + url + last + filled(q, v)
            }
        }),
{
    let middle = if local {
        Part::Uri(url)
    } else {
        Part::Text(url)
    };
    let tail = seq![Part::Text(last)] + q;
    let all = seq![Part::Text(first), middle, Part::Text(last)] + q;
    assert(all =~= seq![Part::Text(first)] + (seq![middle] + tail));
    if local {
        let w = v.skip(1);
        lemma_text_before(last, q, w);
        let p = seq![middle];
        assert(p.drop_last() =~= seq![]);
        assert(uris(p.drop_last()) =~= seq![]);
        assert(uris(p) =~= seq![url]);
        let one = seq![v[0]];
        assert(one.drop_last() =~= seq![]);
        assert(filled(p.drop_last(), one.drop_last()) =~= seq![]);
        assert(filled(p, one) =~= v[0]);
        lemma_uris_of_both(p, tail);
        lemma_filled_both(p, tail, one, w);
        assert(one + w =~= v);
        lemma_text_before(first, p + tail, v);
        assert(filled(all, v) =~= first + v[0] + last + filled(q, w));
    } else {
        lemma_text_before(last, q, v);
        lemma_text_before(url, tail, v);
        lemma_text_before(first, seq![middle] + tail, v);
        assert(filled(all, v) =~= first + url + last + filled(q, v));
    }
}

/// The next `n` characters of `x` from `j` on are those of `line` from `i` on.
spec fn agree(line: Seq<char>, i: int, x: Seq<char>, j: int, n: int) -> bool {
    &&& 0 <= i
    &&& 0 <= j
    &&& 0 <= n
    &&& i + n <= line.len()
    &&& j + n <= x.len()
    &&& line.subrange(i, i + n) == x.subrange(j, j + n)
}

proof fn lemma_agree_at(line: Seq<char>, i: int, x: Seq<char>, j: int, n: int, t: int)
    requires
        agree(line, i, x, j, n),
        0 <= t < n,
    ensures
        x[j + t] == line[i + t],
{
    assert(line.subrange(i, i + n)[t] == x.subrange(j, j + n)[t]);
}

proof fn lemma_agree_behind(line: Seq<char>, i: int, x: Seq<char>, j: int, n: int, t: int)
    requires
        agree(line, i, x, j, n),
        0 <= t <= n,
    ensures
        agree(line, i + t, x, j + t, n - t),
{
    assert(line.subrange(i + t, i + n) =~= line.subrange(i, i + n).skip(t));
    assert(x.subrange(j + t, j + n) =~= x.subrange(j, j + n).skip(t));
}

proof fn lemma_char_found(line: Seq<char>, i: int, x: Seq<char>, j: int, n: int, c: char)
    requires
        agree(line, i, x, j, n),
    ensures
        find_char(line, i, c) matches Some(a) ==> a < i + n ==> find_char(x, j, c) == Some(
            j + a - i,
        ),
        find_char(line, i, c) is None && n == line.len() - i && n == x.len() - j ==> find_char(
            x,
            j,
            c,
        ) is None,
{
    lemma_find_char(line, i, c);
    lemma_find_char(x, j, c);
    assert forall|t: int| 0 <= t < n implies #[trigger] x[j + t] == line[i + t] by {
        lemma_agree_at(line, i, x, j, n, t);
    }
    if let Some(a) = find_char(line, i, c) {
        if a < i + n {
            assert(x[j + (a - i)] == line[i + (a - i)]);
            assert forall|m: int| j <= m < j + a - i implies #[trigger] x[m] != c by {
                assert(x[j + (m - j)] == line[i + (m - j)]);
            }
            lemma_first_char(x, j, c, j + a - i);
        }
    } else if n == line.len() - i && n == x.len() - j {
        assert forall|m: int| j <= m < x.len() implies #[trigger] x[m] != c by {
            assert(x[j + (m - j)] == line[i + (m - j)]);
        }
        lemma_no_char(x, j, c);
    }
}

proof fn lemma_pair_found(line: Seq<char>, i: int, x: Seq<char>, j: int, n: int)
    requires
        agree(line, i, x, j, n),
    ensures
        find_pair(line, i, '!', '[') matches Some(b) ==> b + 2 <= i + n ==> find_pair(
            x,
            j,
            '!',
            '[',
        ) == Some(j + b - i),
        find_pair(line, i, '!', '[') is None && n == line.len() - i && n == x.len() - j
            ==> find_pair(x, j, '!', '[') is None,
{
    lemma_find_pair(line, i, '!', '[');
    lemma_find_pair(x, j, '!', '[');
    assert forall|t: int| 0 <= t < n implies #[trigger] x[j + t] == line[i + t] by {
        lemma_agree_at(line, i, x, j, n, t);
    }
    let found = find_pair(x, j, '!', '[');
    if let Some(b) = find_pair(line, i, '!', '[') {
        if b + 2 <= i + n {
            let at = j + b - i;
            assert(x[j + (b - i)] == line[i + (b - i)]);
            assert(x[j + (b - i + 1)] == line[i + (b - i + 1)]);
            assert(x[at] == '!' && x[at + 1] == '[');
            assert(found is Some);
            let m = found->0;
            if m < at {
                assert(x[j + (m - j)] == line[i + (m - j)]);
                assert(x[j + (m - j + 1)] == line[i + (m - j + 1)]);
                assert(line[i + m - j] == '!' && line[i + m - j + 1] == '[');
            }
        }
    } else if n == line.len() - i && n == x.len() - j {
        if let Some(m) = found {
            assert(x[j + (m - j)] == line[i + (m - j)]);
            assert(x[j + (m - j + 1)] == line[i + (m - j + 1)]);
            assert(line[i + m - j] == '!' && line[i + m - j + 1] == '[');
        }
    }
}

/// What is known of the rest of a line, `o`, that stands behind `p` in place of the rest from
/// `from` on.
spec fn is_settled_rest(line: Seq<char>, from: int, p: Seq<char>, o: Seq<char>) -> bool {
    &&& is_settled(p + o, p.len() as int)
    &&& from == line.len() ==> o.len() == 0
    &&& from < line.len() ==> o.len() > 0 && o[0] == line[from] && o.last() == line.last()
    &&& forall|i: int| 0 <= i < o.len() - 1 ==> #[trigger] o[i] != '\n'
}

/// Whether `p` can stand in place of the first `from` characters of `line`.
spec fn stands_before(line: Seq<char>, from: int, p: Seq<char>) -> bool {
    &&& 0 <= from <= line.len()
    &&& from == 0 <==> p.len() == 0
    &&& from > 0 ==> p.last() == line[from - 1]
}

proof fn lemma_unchanged_parse(line: Seq<char>, from: int, p: Seq<char>)
    requires
        stands_before(line, from, p),
        inline_parts(line, from) == seq![Part::Text(line.skip(from))],
    ensures
        inline_parts(p + line.skip(from), p.len() as int) == seq![Part::Text(line.skip(from))],
{
    let o = line.skip(from);
    let x = p + o;
    let k = p.len() as int;
    let n = o.len() as int;
    assert(line.subrange(from, from + n) =~= x.subrange(k, k + n));
    assert(agree(line, from, x, k, n));
    assert(x.skip(k) =~= o);
    lemma_inline_progress(line, from);
    lemma_pair_found(line, from, x, k, n);
    if let Some(b) = find_pair(line, from, '!', '[') {
        let t = b - from;
        lemma_unchanged_stops(line, from);
        lemma_char_before(line, from, x, k, n, b);
        assert(find_pair(x, k, '!', '[') == Some(k + t));
        lemma_agree_behind(line, from, x, k, n, t + 2);
        lemma_char_found(line, b + 2, x, k + t + 2, n - t - 2, ']');
        match find_char(line, b + 2, ']') {
            None => {
                assert(find_char(x, k + t + 2, ']') is None);
            },
            Some(a) => {
                let m = a - from;
                assert(find_char(x, k + t + 2, ']') == Some(k + m));
                lemma_agree_at(line, from, x, k, n, m + 1);
                assert(x[k + m + 1] == '(');
                lemma_agree_behind(line, from, x, k, n, m + 2);
                lemma_char_found(line, a + 2, x, k + m + 2, n - m - 2, ')');
                assert(find_char(x, k + m + 2, ')') is None);
            },
        }
    }
}

/// An image behind a backslash stands behind one in the other text too.
proof fn lemma_char_before(
    line: Seq<char>,
    from: int,
    x: Seq<char>,
    k: int,
    n: int,
    b: int,
)
    requires
        agree(line, from, x, k, n),
        from <= b <= from + n,
        from == 0 <==> k == 0,
        from > 0 ==> x[k - 1] == line[from - 1],
    ensures
        (k + b - from > 0 && x[k + b - from - 1] == '\\') == (b > 0 && line[b - 1] == '\\'),
{
    if b > from {
        lemma_agree_at(line, from, x, k, n, b - from - 1);
    }
}

proof fn lemma_unchanged_rest(line: Seq<char>, from: int, p: Seq<char>)
    requires
        is_piece(line),
        stands_before(line, from, p),
        inline_parts(line, from) == seq![Part::Text(line.skip(from))],
    ensures
        is_settled_rest(line, from, p, line.skip(from)),
        rest_filled(line, from, seq![]) == line.skip(from),
        uris(inline_parts(line, from)) == Seq::<Seq<char>>::empty(),
{
    let o = line.skip(from);
    let none = Seq::<Part<Seq<char>>>::empty();
    lemma_unchanged_parse(line, from, p);
    lemma_text_before(o, none, seq![]);
    assert(seq![Part::Text(o)] + none =~= seq![Part::Text(o)]);
    assert(uris(none) =~= seq![]);
    assert(filled(none, seq![]) =~= seq![]);
    assert(filled(seq![Part::Text(o)], seq![]) =~= o);
    assert((p + o).skip(p.len() as int) =~= o);
    assert forall|i: int| 0 <= i < o.len() - 1 implies #[trigger] o[i] != '\n' by {
        assert(o[i] == line[from + i]);
    }
}

/// Where the rest of a line is one text, an image that begins there is not completed.
proof fn lemma_unchanged_stops(line: Seq<char>, from: int)
    requires
        0 <= from <= line.len(),
        inline_parts(line, from) == seq![Part::Text(line.skip(from))],
        find_pair(line, from, '!', '[') is Some,
    ensures
        ({
            let b = find_pair(line, from, '!', '[')->0;
            &&& !(b > 0 && line[b - 1] == '\\')
            &&& find_char(line, b + 2, ']') matches Some(a) ==> a + 1 < line.len() && line[a + 1]
                == '(' && find_char(line, a + 2, ')') is None
        }),
{
    lemma_inline_progress(line, from);
    let b = find_pair(line, from, '!', '[')->0;
    let parts = inline_parts(line, from);
    if b > 0 && line[b - 1] == '\\' {
        lemma_some_part(line, b + 2);
        assert(parts == seq![Part::Text(line.subrange(from, b + 2))] + inline_parts(line, b + 2));
    } else if let Some(a) = find_char(line, b + 2, ']') {
        if !(a + 1 < line.len() && line[a + 1] == '(') {
            lemma_some_part(line, a + 1);
            assert(parts == seq![Part::Text(line.subrange(from, a + 1))] + inline_parts(
                line,
                a + 1,
            ));
        } else if let Some(c) = find_char(line, a + 2, ')') {
            assert(parts == image_parts_at(line, from, a, c) + inline_parts(line, c + 1));
        }
    }
}

proof fn lemma_some_part(line: Seq<char>, from: int)
    requires
        0 <= from <= line.len(),
    ensures
        inline_parts(line, from).len() > 0,
{
    lemma_inline_progress(line, from);
}

proof fn lemma_text_step(line: Seq<char>, from: int, to: int, p: Seq<char>, urls: Seq<Seq<char>>)
    requires
        is_piece(line),
        stands_before(line, from, p),
        from < to <= line.len(),
        inline_parts(line, from) == seq![Part::Text(line.subrange(from, to))] + inline_parts(
            line,
            to,
        ),
        urls.len() == uris(inline_parts(line, to)).len(),
        ({
            let text = line.subrange(from, to);
            let o = rest_filled(line, to, urls);
            let x = p + (text + o);
            &&& is_settled_rest(line, to, p + text, o)
            &&& inline_parts(x, p.len() as int) == seq![Part::Text(text)] + inline_parts(
                x,
                (p.len() + text.len()) as int,
            )
        }),
    ensures
        uris(inline_parts(line, from)) == uris(inline_parts(line, to)),
        is_settled_rest(line, from, p, rest_filled(line, from, urls)),
{
    let text = line.subrange(from, to);
    let o = rest_filled(line, to, urls);
    let whole = text + o;
    let x = p + whole;
    let k = p.len() as int;
    let m = k + text.len();
    lemma_text_before(text, inline_parts(line, to), urls);
    assert(rest_filled(line, from, urls) == whole);
    assert(p + text + o =~= x);
    lemma_text_before(text, inline_parts(x, m), seq![]);
    assert(x.skip(k) =~= text + x.skip(m));
    assert(whole[0] == line[from]);
    assert(whole.last() == line.last());
    assert forall|i: int| 0 <= i < whole.len() - 1 implies #[trigger] whole[i] != '\n' by {
        if i < text.len() {
            assert(whole[i] == line[from + i]);
            if from + i == line.len() - 1 {
                assert(o.len() == 0);
            }
        } else {
            assert(whole[i] == o[i - text.len()]);
        }
    }
}

/// What an image becomes, where `url` is its URL now.
spec fn image_text(url: Seq<char>, title: Seq<char>) -> Seq<char> {
    url + spaced_title(title) + seq![')']
}

/// The start of an image at the place `from` of `line`, whose alternative text ends at `a`.
spec fn opens_image(line: Seq<char>, from: int, a: int) -> bool {
    let b = find_pair(line, from, '!', '[')->0;
    &&& find_pair(line, from, '!', '[') is Some
    &&& !(b > 0 && line[b - 1] == '\\')
    &&& find_char(line, b + 2, ']') == Some(a)
    &&& a + 1 < line.len()
    &&& line[a + 1] == '('
}

proof fn lemma_image_opens(line: Seq<char>, from: int, p: Seq<char>, a: int, o: Seq<char>)
    requires
        stands_before(line, from, p),
        opens_image(line, from, a),
    ensures
        from < a + 2 <= line.len(),
        opens_image(p + (line.subrange(from, a + 2) + o), p.len() as int, p.len() + a - from),
{
    let b = find_pair(line, from, '!', '[')->0;
    lemma_inline_progress(line, from);
    let first = line.subrange(from, a + 2);
    let x = p + (first + o);
    let k = p.len() as int;
    let n = first.len() as int;
    assert(line.subrange(from, from + n) =~= x.subrange(k, k + n));
    assert(agree(line, from, x, k, n));
    let t = b - from;
    let m = a - from;
    lemma_pair_found(line, from, x, k, n);
    assert(from > 0 ==> x[k - 1] == p.last());
    lemma_char_before(line, from, x, k, n, b);
    lemma_agree_behind(line, from, x, k, n, t + 2);
    lemma_char_found(line, b + 2, x, k + t + 2, n - t - 2, ']');
    lemma_agree_at(line, from, x, k, n, m + 1);
}

proof fn lemma_image_closes(before: Seq<char>, url: Seq<char>, title: Seq<char>, o: Seq<char>)
    requires
        is_compact(url),
        forall|i: int| 0 <= i < title.len() ==> #[trigger] title[i] != ')',
    ensures
        find_char(before + (image_text(url, title) + o), before.len() as int, ')') == Some(
            (before.len() + url.len() + spaced_title(title).len()) as int,
        ),
{
    let x = before + (image_text(url, title) + o);
    let k = before.len() as int;
    let inside = url + spaced_title(title);
    let c = k + inside.len();
    assert(x[c] == ')');
    assert forall|j: int| k <= j < c implies #[trigger] x[j] != ')' by {
        let i = j - k;
        assert(x[j] == inside[i]);
        if i < url.len() {
            assert(inside[i] == url[i]);
        } else if i > url.len() {
            assert(inside[i] == title[i - url.len() - 1]);
        }
    }
    lemma_first_char(x, k, ')', c);
}

/// The parts of a text that begins with the start of an image, of which `url` and `title` follow.
proof fn lemma_image_parse(
    line: Seq<char>,
    from: int,
    p: Seq<char>,
    a: int,
    url: Seq<char>,
    title: Seq<char>,
    o: Seq<char>,
)
    requires
        stands_before(line, from, p),
        opens_image(line, from, a),
        is_compact(url),
        !is_local(url),
        forall|i: int| 0 <= i < title.len() ==> #[trigger] title[i] != ')',
        title.len() > 0 ==> !is_space(title[0]) && !is_space(title.last()),
    ensures
        ({
            let first = line.subrange(from, a + 2);
            let x = p + (first + (image_text(url, title) + o));
            let k = p.len() as int;
            inline_parts(x, k) == seq![
                Part::Text(first),
                Part::Text(url),
                Part::Text(spaced_title(title).push(')')),
            ] + inline_parts(x, k + first.len() + image_text(url, title).len())
        }),
{
    let first = line.subrange(from, a + 2);
    let image = image_text(url, title);
    let x = p + (first + (image + o));
    let k = p.len() as int;
    let at = k + a - from;
    lemma_image_opens(line, from, p, a, image + o);
    let before = p + first;
    lemma_image_closes(before, url, title, o);
    assert(before + (image + o) =~= x);
    assert(before.len() == at + 2);
    let inside = url + spaced_title(title);
    let c = at + 2 + inside.len();
    assert(find_char(x, at + 2, ')') == Some(c));
    assert(x.subrange(at + 2, c) =~= inside);
    assert(x.subrange(k, at + 2) =~= first);
    lemma_url_and_title_again(url, title);
    assert(inline_parts(x, k) == image_parts_at(x, k, at, c) + inline_parts(x, c + 1));
    assert(image_parts_at(x, k, at, c) =~= seq![
        Part::Text(first),
        Part::Text(url),
        Part::Text(spaced_title(title).push(')')),
    ]);
}

/// The URL of an image and those behind it, where `urls` are the new ones from it on.
spec fn new_url(url: Seq<char>, urls: Seq<Seq<char>>) -> Seq<char> {
    if is_local(url) {
        urls[0]
    } else {
        url
    }
}

spec fn urls_behind(url: Seq<char>, urls: Seq<Seq<char>>) -> Seq<Seq<char>> {
    if is_local(url) {
        urls.skip(1)
    } else {
        urls
    }
}

/// Whether an image stands at the place `from` of `line`, between `a` and `c`.
spec fn is_image(line: Seq<char>, from: int, a: int, c: int) -> bool {
    opens_image(line, from, a) && find_char(line, a + 2, ')') == Some(c)
}

proof fn lemma_filled_image(
    line: Seq<char>,
    from: int,
    a: int,
    c: int,
    urls: Seq<Seq<char>>,
)
    requires
        0 <= from <= line.len(),
        is_image(line, from, a, c),
        urls.len() == uris(inline_parts(line, from)).len(),
    ensures
        ({
            let (url, title) = url_and_title(line.subrange(a + 2, c));
            &&& urls_behind(url, urls).len() == uris(inline_parts(line, c + 1)).len()
            &&& is_local(url) ==> urls.len() > 0
            &&& rest_filled(line, from, urls) == line.subrange(from, a + 2) + (image_text(
                new_url(url, urls),
                title,
            ) + rest_filled(line, c + 1, urls_behind(url, urls)))
        }),
{
    let (url, title) = url_and_title(line.subrange(a + 2, c));
    let first = line.subrange(from, a + 2);
    let last = spaced_title(title).push(')');
    let q = inline_parts(line, c + 1);
    lemma_inline_progress(line, from);
    lemma_count_uris(first, url, is_local(url), last, q);
    assert(inline_parts(line, from) == image_parts_at(line, from, a, c) + q);
    lemma_image_before(first, url, is_local(url), last, q, urls);
    assert(rest_filled(line, from, urls) =~= first + (image_text(new_url(url, urls), title)
        + rest_filled(line, c + 1, urls_behind(url, urls))));
}

proof fn lemma_image_unbroken(
    line: Seq<char>,
    from: int,
    a: int,
    c: int,
    url: Seq<char>,
    title: Seq<char>,
    o: Seq<char>,
)
    requires
        is_piece(line),
        0 <= from <= a + 2 <= c < line.len(),
        is_compact(url),
        is_title_in(line.subrange(a + 2, c), title),
        forall|i: int| 0 <= i < o.len() - 1 ==> #[trigger] o[i] != '\n',
    ensures
        ({
            let whole = line.subrange(from, a + 2) + (image_text(url, title) + o);
            forall|i: int| 0 <= i < whole.len() - 1 ==> #[trigger] whole[i] != '\n'
        }),
{
    let first = line.subrange(from, a + 2);
    let inside = line.subrange(a + 2, c);
    let image = image_text(url, title);
    let whole = first + (image + o);
    let n = first.len() as int;
    let m = image.len() as int;
    assert forall|i: int| 0 <= i < image.len() implies #[trigger] image[i] != '\n' by {
        let j = i - url.len();
        if j < 0 {
            assert(image[i] == url[i]);
            assert(!is_space(url[i]));
        } else if 0 < j < spaced_title(title).len() {
            let d = title[j - 1];
            assert(image[i] == d);
            assert(inside.contains(d));
            let q = choose|q: int| 0 <= q < inside.len() && inside[q] == d;
            assert(line[a + 2 + q] == d);
        }
    }
    assert forall|i: int| 0 <= i < whole.len() - 1 implies #[trigger] whole[i] != '\n' by {
        if i < n {
            assert(whole[i] == line[from + i]);
        } else if i < n + m {
            assert(whole[i] == image[i - n]);
        } else {
            assert(whole[i] == o[i - n - m]);
        }
    }
}

proof fn lemma_image_step(
    line: Seq<char>,
    from: int,
    p: Seq<char>,
    a: int,
    c: int,
    url: Seq<char>,
    title: Seq<char>,
    o: Seq<char>,
)
    requires
        is_piece(line),
        stands_before(line, from, p),
        is_image(line, from, a, c),
        is_compact(url),
        !is_local(url),
        is_title_in(line.subrange(a + 2, c), title),
        is_settled_rest(line, c + 1, p + line.subrange(from, a + 2) + image_text(url, title), o),
    ensures
        is_settled_rest(
            line,
            from,
            p,
            line.subrange(from, a + 2) + (image_text(url, title) + o),
        ),
{
    let first = line.subrange(from, a + 2);
    let image = image_text(url, title);
    let last = spaced_title(title).push(')');
    let whole = first + (image + o);
    let x = p + whole;
    let k = p.len() as int;
    let end = k + first.len() + image.len();
    lemma_inline_progress(line, from);
    lemma_find_char(line, a + 2, ')');
    lemma_image_parse(line, from, p, a, url, title, o);
    assert(p + first + image + o =~= x);
    lemma_image_before(first, url, false, last, inline_parts(x, end), seq![]);
    assert(x.skip(k) =~= first + url + last + x.skip(end));
    assert(is_settled(x, k));
    assert(whole[0] == line[from]);
    if c + 1 == line.len() {
        assert(whole.last() == ')');
    }
    assert(whole.last() == line.last());
    lemma_image_unbroken(line, from, a, c, url, title, o);
}

/// Whether the line goes on with text up to the place `to`, and is read on from there.
spec fn is_text_step(line: Seq<char>, from: int, to: int) -> bool {
    let found = find_pair(line, from, '!', '[');
    let b = found->0;
    let closed = find_char(line, b + 2, ']');
    let a = closed->0;
    found is Some && if b > 0 && line[b - 1] == '\\' {
        to == b + 2
    } else {
        closed is Some && !(a + 1 < line.len() && line[a + 1] == '(') && to == a + 1
    }
}

proof fn lemma_text_step_parse(line: Seq<char>, from: int, to: int, p: Seq<char>, o: Seq<char>)
    requires
        stands_before(line, from, p),
        is_text_step(line, from, to),
        to == line.len() ==> o.len() == 0,
        to < line.len() ==> o.len() > 0 && o[0] == line[to],
    ensures
        from < to <= line.len(),
        is_text_step(p + (line.subrange(from, to) + o), p.len() as int, p.len() + to - from),
{
    let b = find_pair(line, from, '!', '[')->0;
    lemma_inline_progress(line, from);
    let text = line.subrange(from, to);
    let x = p + (text + o);
    let k = p.len() as int;
    let n = text.len() as int;
    let t = b - from;
    assert(line.subrange(from, from + n) =~= x.subrange(k, k + n));
    assert(agree(line, from, x, k, n));
    let escaped = b > 0 && line[b - 1] == '\\';
    assert(find_pair(x, k, '!', '[') == Some(k + t)) by {
        lemma_pair_found(line, from, x, k, n);
    }
    assert((k + t > 0 && x[k + t - 1] == '\\') == escaped) by {
        assert(from > 0 ==> x[k - 1] == p.last());
        lemma_char_before(line, from, x, k, n, b);
    }
    if !escaped {
        assert(find_char(x, k + t + 2, ']') == Some(k + n - 1)) by {
            lemma_agree_behind(line, from, x, k, n, t + 2);
            lemma_char_found(line, b + 2, x, k + t + 2, n - t - 2, ']');
        }
        assert(!(k + n < x.len() && x[k + n] == '(')) by {
            if k + n < x.len() {
                assert(x[k + n] == o[0]);
            }
        }
    }
}

proof fn lemma_text_step_parts(line: Seq<char>, from: int, to: int)
    requires
        0 <= from <= line.len(),
        is_text_step(line, from, to),
    ensures
        from < to <= line.len(),
        inline_parts(line, from) == seq![Part::Text(line.subrange(from, to))] + inline_parts(
            line,
            to,
        ),
{
    lemma_inline_progress(line, from);
}

proof fn lemma_text_is_settled(
    line: Seq<char>,
    from: int,
    urls: Seq<Seq<char>>,
    p: Seq<char>,
    to: int,
)
    requires
        is_piece(line),
        stands_before(line, from, p),
        urls.len() == uris(inline_parts(line, from)).len(),
        are_settled(urls),
        is_text_step(line, from, to),
    ensures
        is_settled_rest(line, from, p, rest_filled(line, from, urls)),
    decreases line.len() - from, 0int,
{
    let text = line.subrange(from, to);
    let q = inline_parts(line, to);
    lemma_text_step_parts(line, from, to);
    lemma_text_before(text, q, uris(q));
    lemma_rest_is_settled(line, to, urls, p + text);
    let o = rest_filled(line, to, urls);
    let x = p + (text + o);
    let k = p.len() as int;
    lemma_text_step_parse(line, from, to, p, o);
    lemma_text_step_parts(x, k, k + to - from);
    assert(x.subrange(k, k + to - from) =~= text);
    lemma_text_step(line, from, to, p, urls);
}

proof fn lemma_rest_is_settled(
    line: Seq<char>,
    from: int,
    urls: Seq<Seq<char>>,
    p: Seq<char>,
)
    requires
        is_piece(line),
        stands_before(line, from, p),
        urls.len() == uris(inline_parts(line, from)).len(),
        are_settled(urls),
    ensures
        is_settled_rest(line, from, p, rest_filled(line, from, urls)),
    decreases line.len() - from, 1int,
{
    let found = find_pair(line, from, '!', '[');
    let b = found->0;
    let closed = find_char(line, b + 2, ']');
    let a = closed->0;
    let ended = find_char(line, a + 2, ')');
    if is_text_step(line, from, b + 2) {
        lemma_text_is_settled(line, from, urls, p, b + 2);
    } else if is_text_step(line, from, a + 1) {
        lemma_text_is_settled(line, from, urls, p, a + 1);
    } else if found is None || closed is None || ended is None {
        assert(inline_parts(line, from) == seq![Part::Text(line.skip(from))]);
        lemma_unchanged_rest(line, from, p);
        assert(urls =~= seq![]);
    } else {
        lemma_image_is_settled(line, from, urls, p, a, ended->0);
    }
}

proof fn lemma_image_is_settled(
    line: Seq<char>,
    from: int,
    urls: Seq<Seq<char>>,
    p: Seq<char>,
    a: int,
    c: int,
)
    requires
        is_piece(line),
        stands_before(line, from, p),
        urls.len() == uris(inline_parts(line, from)).len(),
        are_settled(urls),
        is_image(line, from, a, c),
    ensures
        is_settled_rest(line, from, p, rest_filled(line, from, urls)),
    decreases line.len() - from, 0int,
{
    let inside = line.subrange(a + 2, c);
    let (url, title) = url_and_title(inside);
    let first = line.subrange(from, a + 2);
    let new = new_url(url, urls);
    let rest = urls_behind(url, urls);
    lemma_inline_progress(line, from);
    lemma_find_char(line, a + 2, ')');
    assert forall|i: int| 0 <= i < inside.len() implies #[trigger] inside[i] != ')' by {
        assert(inside[i] == line[a + 2 + i]);
    }
    lemma_url_and_title(inside);
    lemma_filled_image(line, from, a, c, urls);
    assert(are_settled(rest)) by {
        assert forall|j: int| 0 <= j < rest.len() implies is_compact(#[trigger] rest[j])
            && !is_local(rest[j]) by {
            if is_local(url) {
                assert(rest[j] == urls[j + 1]);
            }
        }
    }
    if is_local(url) {
        assert(is_compact(urls[0]) && !is_local(urls[0]));
    }
    let next = p + first + image_text(new, title);
    assert(next.last() == ')');
    lemma_rest_is_settled(line, c + 1, rest, next);
    lemma_image_step(line, from, p, a, c, new, title, rest_filled(line, c + 1, rest));
}

proof fn lemma_count_uris(
    first: Seq<char>,
    url: Seq<char>,
    local: bool,
    last: Seq<char>,
    q: Seq<Part<Seq<char>>>,
)
    ensures
        uris(
            seq![
                Part::Text(first),
                if local {
                    Part::Uri(url)
                } else {
                    Part::Text(url)
                },
                Part::Text(last),
            ] + q,
        ).len() == uris(q).len() + if local {
            1int
        } else {
            0
        },
{
    let v = if local {
        seq![url] + uris(q)
    } else {
        uris(q)
    };
    lemma_image_before(first, url, local, last, q, v);
}

/// A line that may define a reference: its first character is an opening bracket.
pub open spec fn is_definition(line: Seq<char>) -> bool {
    trim_start(line).len() > 0 && trim_start(line)[0] == '['
}

proof fn lemma_first_chunk(line: Seq<char>, urls: Seq<Seq<char>>, m: int)
    requires
        is_piece(line),
        urls.len() == uris(inline_parts(line, 0)).len(),
        0 <= m < line.len(),
        forall|j: int| 0 <= j < m ==> is_space(#[trigger] line[j]),
    ensures
        rest_filled(line, 0, urls).len() > m,
        rest_filled(line, 0, urls).take(m + 1) == line.take(m + 1),
{
    let found = find_pair(line, 0, '!', '[');
    let b = found->0;
    let closed = find_char(line, b + 2, ']');
    let a = closed->0;
    let ended = find_char(line, a + 2, ')');
    let r = rest_filled(line, 0, urls);
    lemma_inline_progress(line, 0);
    lemma_find_pair(line, 0, '!', '[');
    if found is Some {
        assert(b >= m) by {
            if b < m {
                assert(is_space(line[b]));
            }
        }
    }
    let to = if found is Some && b > 0 && line[b - 1] == '\\' {
        b + 2
    } else {
        a + 1
    };
    if is_text_step(line, 0, to) {
        let text = line.subrange(0, to);
        let q = inline_parts(line, to);
        lemma_text_step_parts(line, 0, to);
        lemma_text_before(text, q, uris(q));
        lemma_text_before(text, q, urls);
        assert(r.take(m + 1) =~= line.take(m + 1));
    } else if found is None || closed is None || ended is None {
        assert(inline_parts(line, 0) == seq![Part::Text(line.skip(0))]);
        lemma_unchanged_rest(line, 0, seq![]);
        assert(urls =~= seq![]);
        assert(r.take(m + 1) =~= line.take(m + 1));
    } else {
        lemma_filled_image(line, 0, a, ended->0, urls);
        assert(r.take(m + 1) =~= line.take(m + 1));
    }
}

proof fn lemma_start_is_kept(line: Seq<char>, urls: Seq<Seq<char>>)
    requires
        is_piece(line),
        !is_definition(line),
        urls.len() == uris(inline_parts(line, 0)).len(),
        are_settled(urls),
    ensures
        !is_definition(rest_filled(line, 0, urls)),
{
    let r = rest_filled(line, 0, urls);
    let t = trim_start(line);
    lemma_trim_start_is_tail(line);
    lemma_trim_start_is_tail(r);
    lemma_rest_is_settled(line, 0, urls, seq![]);
    let m = if t.len() > 0 {
        line.len() - t.len()
    } else {
        line.len() - 1
    };
    lemma_first_chunk(line, urls, m);
    let n = r.len() - trim_start(r).len();
    assert(r[m] == r.take(m + 1)[m] && line[m] == line.take(m + 1)[m]);
    if t.len() > 0 {
        assert(t[0] == line[m]);
        if n < m {
            assert(r[n] == r.take(m + 1)[n] && line[n] == line.take(m + 1)[n]);
            assert(is_space(line[n]));
            assert(trim_start(r)[0] == r[n]);
        } else if n > m {
            assert(is_space(r[m]));
        } else {
            assert(trim_start(r)[0] == r[m]);
        }
    } else {
        lemma_blank_line(line, urls);
    }
}

proof fn lemma_blank_line(line: Seq<char>, urls: Seq<Seq<char>>)
    requires
        is_piece(line),
        trim_start(line).len() == 0,
        urls.len() == uris(inline_parts(line, 0)).len(),
    ensures
        rest_filled(line, 0, urls) == line,
{
    lemma_trim_start_is_tail(line);
    lemma_find_pair(line, 0, '!', '[');
    if let Some(b) = find_pair(line, 0, '!', '[') {
        assert(is_space(line[b]));
    }
    assert(inline_parts(line, 0) == seq![Part::Text(line.skip(0))]);
    lemma_unchanged_rest(line, 0, seq![]);
    assert(urls =~= seq![]);
    assert(line.skip(0) =~= line);
}

/// A line that was resolved is left as it is.
proof fn lemma_line_is_settled(line: Seq<char>, urls: Seq<Seq<char>>)
    requires
        is_piece(line),
        !is_definition(line),
        urls.len() == uris(line_parts(line)).len(),
        are_settled(urls),
    ensures
        ({
            let r = filled(line_parts(line), urls);
            &&& is_piece(r)
            &&& r.last() == line.last()
            &&& uris(line_parts(r)).len() == 0
            &&& filled(line_parts(r), seq![]) == r
        }),
{
    let empty = Seq::<char>::empty();
    assert(reference_parts(line) is None);
    let r = rest_filled(line, 0, urls);
    lemma_rest_is_settled(line, 0, urls, empty);
    assert(empty + r =~= r);
    lemma_start_is_kept(line, urls);
    assert(reference_parts(r) is None);
    assert(r.skip(0) =~= r);
}

proof fn lemma_lines_are_settled(ls: Seq<Seq<char>>, urls: Seq<Seq<char>>)
    requires
        forall|i: int| 0 <= i < ls.len() ==> is_piece(#[trigger] ls[i]) && !is_definition(ls[i]),
        forall|i: int| 0 <= i < ls.len() - 1 ==> (#[trigger] ls[i]).last() == '\n',
        urls.len() == uris(parts_of_lines(ls)).len(),
        are_settled(urls),
    ensures
        ({
            let r = filled(parts_of_lines(ls), urls);
            &&& uris(parts_of(r)).len() == 0
            &&& filled(parts_of(r), seq![]) == r
            &&& ls.len() == 0 || ls.last().last() == '\n' ==> ends_line(r)
        }),
    decreases ls.len(),
{
    let r = filled(parts_of_lines(ls), urls);
    if ls.len() == 0 {
        assert(r =~= seq![]);
        assert(pieces(r) =~= seq![]);
        assert(parts_of(r) =~= seq![]);
        assert(filled(parts_of(r), seq![]) =~= seq![]);
    } else {
        let front = ls.drop_last();
        let line = ls.last();
        let p = parts_of_lines(front);
        let q = line_parts(line);
        assert(is_piece(ls[ls.len() - 1]) && !is_definition(ls[ls.len() - 1]));
        lemma_uris_of_both(p, q);
        let n = uris(p).len() as int;
        let u = urls.take(n);
        let v = urls.skip(n);
        assert(u + v =~= urls);
        lemma_filled_both(p, q, u, v);
        assert(are_settled(u)) by {
            assert forall|k: int| 0 <= k < u.len() implies is_compact(#[trigger] u[k])
                && !is_local(u[k]) by {
                assert(u[k] == urls[k]);
            }
        }
        assert(are_settled(v)) by {
            assert forall|k: int| 0 <= k < v.len() implies is_compact(#[trigger] v[k])
                && !is_local(v[k]) by {
                assert(v[k] == urls[n + k]);
            }
        }
        assert forall|i: int| 0 <= i < front.len() implies is_piece(#[trigger] front[i])
            && !is_definition(front[i]) && front[i].last() == '\n' by {
            assert(front[i] == ls[i]);
        }
        lemma_lines_are_settled(front, u);
        lemma_line_is_settled(line, v);
        let a = filled(p, u);
        let b = filled(q, v);
        assert(r == a + b);
        lemma_pieces_of_both(a, b);
        lemma_one_piece(b);
        lemma_parts_of_both(pieces(a), pieces(b));
        let one = seq![b];
        assert(one.drop_last() =~= seq![]);
        assert(parts_of_lines(one.drop_last()) =~= seq![]);
        assert(parts_of_lines(one) =~= line_parts(b));
        lemma_uris_of_both(parts_of(a), line_parts(b));
        lemma_filled_both(parts_of(a), line_parts(b), seq![], seq![]);
        assert(Seq::<Seq<char>>::empty() + Seq::<Seq<char>>::empty() =~= Seq::<
            Seq<char>,
        >::empty());
        assert(r.last() == b.last());
    }
}

/// Parts whose URIs hold no whitespace and no closing parenthesis.
spec fn all_compact(parts: Seq<Part<Seq<char>>>) -> bool {
    forall|i: int|
        0 <= i < parts.len() ==> (#[trigger] parts[i] matches Part::Uri(u) ==> is_compact(u))
}

proof fn lemma_inline_compact(line: Seq<char>, from: int)
    requires
        0 <= from <= line.len(),
    ensures
        all_compact(inline_parts(line, from)),
    decreases line.len() - from,
{
    lemma_inline_progress(line, from);
    if let Some(b) = find_pair(line, from, '!', '[') {
        if b > 0 && line[b - 1] == '\\' {
            lemma_inline_compact(line, b + 2);
        } else if let Some(a) = find_char(line, b + 2, ']') {
            if !(a + 1 < line.len() && line[a + 1] == '(') {
                lemma_inline_compact(line, a + 1);
            } else if let Some(c) = find_char(line, a + 2, ')') {
                let inside = line.subrange(a + 2, c);
                lemma_find_char(line, a + 2, ')');
                assert forall|i: int| 0 <= i < inside.len() implies #[trigger] inside[i] != ')' by {
                    assert(inside[i] == line[a + 2 + i]);
                }
                lemma_url_and_title(inside);
                lemma_inline_compact(line, c + 1);
            }
        }
    }
}

proof fn lemma_lines_compact(ls: Seq<Seq<char>>)
    requires
        forall|i: int| 0 <= i < ls.len() ==> !is_definition(#[trigger] ls[i]),
    ensures
        all_compact(parts_of_lines(ls)),
    decreases ls.len(),
{
    if ls.len() > 0 {
        let front = ls.drop_last();
        assert forall|i: int| 0 <= i < front.len() implies !is_definition(#[trigger] front[i]) by {
            assert(front[i] == ls[i]);
        }
        lemma_lines_compact(front);
        assert(!is_definition(ls[ls.len() - 1]));
        lemma_inline_compact(ls.last(), 0);
    }
}

proof fn lemma_uris_compact(parts: Seq<Part<Seq<char>>>)
    requires
        all_compact(parts),
    ensures
        forall|k: int| 0 <= k < uris(parts).len() ==> is_compact(#[trigger] uris(parts)[k]),
    decreases parts.len(),
{
    if parts.len() > 0 {
        let front = parts.drop_last();
        assert forall|i: int| 0 <= i < front.len() implies (#[trigger] front[i] matches Part::Uri(u)
            ==> is_compact(u)) by {
            assert(front[i] == parts[i]);
        }
        lemma_uris_compact(front);
        let last = parts[parts.len() - 1];
        assert(last matches Part::Uri(u) ==> is_compact(u));
        assert forall|k: int| 0 <= k < uris(parts).len() implies is_compact(
            #[trigger] uris(parts)[k],
        ) by {
            if k < uris(front).len() {
                assert(uris(parts)[k] == uris(front)[k]);
            }
        }
    }
}

proof fn lemma_url_is_settled(path: Seq<char>, dir: Seq<char>, url: Seq<char>)
    requires
        is_compact(path),
        is_compact(dir),
        is_file_url_of(path, dir, url),
    ensures
        is_compact(url),
        !is_local(url),
{
    lemma_file_url_shape(path, dir, url);
    lemma_nothing_to_trim(path);
    let full = choose|full: Seq<char>| #[trigger]
        is_joined(dir, trim(path), full) && url == file_url(full);
    lemma_join_adds_separators(dir, path, full);
    let s = slashed(full);
    assert(is_compact(s)) by {
        assert forall|i: int| 0 <= i < s.len() implies !is_space(#[trigger] s[i]) && s[i]
            != ')' by {
            let c = full[i];
            if dir.contains(c) {
                let m = choose|m: int| 0 <= m < dir.len() && dir[m] == c;
                assert(!is_space(dir[m]));
            } else if path.contains(c) {
                let m = choose|m: int| 0 <= m < path.len() && path[m] == c;
                assert(!is_space(path[m]));
            } else {
                assert(is_separator(full[i]));
            }
        }
    }
    reveal_strlit("file://");
    reveal_strlit("file:///");
    let n = url.len() - s.len();
    assert forall|i: int| 0 <= i < url.len() implies !is_space(#[trigger] url[i]) && url[i]
        != ')' by {
        if i >= n {
            assert(url[i] == s[i - n]);
        }
    }
}

/// Resolving the URIs of a text a second time changes nothing, where no line of it may define a
/// reference, and the directory holds no whitespace and no closing parenthesis.
pub proof fn lemma_resolving_twice(
    content: Seq<char>,
    dir: Seq<char>,
    once: Seq<char>,
    twice: Seq<char>,
)
    requires
        forall|i: int| 0 <= i < pieces(content).len() ==> !is_definition(#[trigger] pieces(content)[i]),
        is_compact(dir),
        is_resolved(content, dir, once),
        is_resolved(once, dir, twice),
    ensures
        twice == once,
{
    let ls = pieces(content);
    let parts = parts_of(content);
    let paths = uris(parts);
    lemma_pieces_are_lines(content);
    lemma_lines_compact(ls);
    lemma_uris_compact(parts);
    let urls = choose|urls: Seq<Seq<char>>|
        urls.len() == paths.len() && (forall|k: int|
            0 <= k < urls.len() ==> is_file_url_of(paths[k], dir, #[trigger] urls[k])) && once
            == #[trigger] filled(parts, urls);
    assert(are_settled(urls)) by {
        assert forall|k: int| 0 <= k < urls.len() implies is_compact(#[trigger] urls[k])
            && !is_local(urls[k]) by {
            assert(is_compact(paths[k]));
            lemma_url_is_settled(paths[k], dir, urls[k]);
        }
    }
    lemma_lines_are_settled(ls, urls);
    let again = choose|urls: Seq<Seq<char>>|
        urls.len() == uris(parts_of(once)).len() && (forall|k: int|
            0 <= k < urls.len() ==> is_file_url_of(
                uris(parts_of(once))[k],
                dir,
                #[trigger] urls[k],
            )) && twice == #[trigger] filled(parts_of(once), urls);
    assert(again =~= seq![]);
}

} // verus!
