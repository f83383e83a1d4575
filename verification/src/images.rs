//! Image references in markdown: which URIs are local paths, and how they become `file://` URLs.
use crate::lines::{
    body_of, ending_of, lemma_pieces_make_text, line_body, line_ending, pieces, pieces_of,
};
use crate::paths::{
    drive_len, is_absolute_on, is_joined, is_plain_dir, is_plain_relative, is_verbatim, joined_on,
    lemma_absolute_join, lemma_joined_on_systems, lemma_plain_join, lemma_rooted_join,
    path_is_absolute, path_join, plain_join, prefix_len, slashed,
};
use crate::text::{
    find_char, find_pair, find_space, leading_space, lemma_find_char, lemma_find_pair,
    lemma_trimmed, position_of, position_of_pair, position_of_space, push_chars, push_str,
    starts_with, text_views, to_chars, to_text, trim, trim_chars, trim_start, trim_start_chars,
};
use vstd::prelude::*;
use vstd::slice::slice_subrange;

verus! {

/// A piece of a markdown text: either text to keep as it is, or the URI of an image that is a
/// local path.
pub enum Part<T> {
    Text(T),
    Uri(T),
}

impl View for Part<String> {
    type V = Part<Seq<char>>;

    open spec fn view(&self) -> Part<Seq<char>> {
        match self {
            Part::Text(t) => Part::Text(t@),
            Part::Uri(u) => Part::Uri(u@),
        }
    }
}

/// The views of a sequence of parts.
pub open spec fn part_views(parts: Seq<Part<String>>) -> Seq<Part<Seq<char>>> {
    Seq::new(parts.len(), |i: int| parts[i]@)
}

/// A URI that carries a scheme, or that points into its own document.
pub open spec fn carries_scheme(uri: Seq<char>) -> bool {
    ||| "http://"@.is_prefix_of(uri)
    ||| "https://"@.is_prefix_of(uri)
    ||| "file://"@.is_prefix_of(uri)
    ||| "data:"@.is_prefix_of(uri)
    ||| (uri.len() > 0 && uri[0] == '#')
}

/// Whether `uri` carries a scheme, or points into its own document.
pub fn has_uri_scheme(uri: &str) -> (b: bool)
    ensures
        b == carries_scheme(uri@),
{
    let chars = to_chars(uri);
    chars_carry_scheme(chars.as_slice())
}

fn chars_carry_scheme(uri: &[char]) -> (b: bool)
    ensures
        b == carries_scheme(uri@),
{
    starts_with(uri, "http://") || starts_with(uri, "https://") || starts_with(uri, "file://")
        || starts_with(uri, "data:") || (uri.len() > 0 && uri[0] == '#')
}

/// The `file://` URL of the path with the text `path`.
pub open spec fn file_url(path: Seq<char>) -> Seq<char> {
    let s = slashed(path);
    if s.len() > 0 && s[0] == '/' {
        "file://"@ + s
    } else {
        "file:///"@ + s
    }
}

/// Whether `url` is the URL of the file that `path` leads to from the directory `dir`, on one
/// system or another.
pub open spec fn is_file_url_of(path: Seq<char>, dir: Seq<char>, url: Seq<char>) -> bool {
    exists|full: Seq<char>| #[trigger]
        is_joined(dir, trim(path), full) && url == file_url(full)
}

/// The URL of an ordinary relative path in an ordinary directory is known on every system.
pub proof fn lemma_plain_file_url(path: Seq<char>, dir: Seq<char>, url: Seq<char>)
    requires
        is_file_url_of(path, dir, url),
        is_plain_dir(dir),
        is_plain_relative(trim(path)),
    ensures
        url == file_url(plain_join(dir, trim(path))),
{
    let full = choose|full: Seq<char>| #[trigger]
        is_joined(dir, trim(path), full) && url == file_url(full);
    lemma_plain_join(dir, trim(path), full);
}

/// The directory plays no part in the URL of a path that begins with a slash, but for its drive or
/// its share.
pub proof fn lemma_rooted_file_url(path: Seq<char>, dir: Seq<char>, url: Seq<char>)
    requires
        is_file_url_of(path, dir, url),
        !is_verbatim(dir),
        trim(path).len() > 0,
        trim(path)[0] == '/',
    ensures
        url == file_url(trim(path)) || url == file_url(dir.take(prefix_len(dir)) + trim(path)),
        prefix_len(dir) == 0 ==> url == file_url(trim(path)),
{
    let full = choose|full: Seq<char>| #[trigger]
        is_joined(dir, trim(path), full) && url == file_url(full);
    lemma_rooted_join(dir, trim(path), full);
}

/// The directory plays no part in the URL of a path with a drive, where drives are known; elsewhere
/// such a path is a relative one.
pub proof fn lemma_drive_file_url(path: Seq<char>, dir: Seq<char>, url: Seq<char>)
    requires
        is_file_url_of(path, dir, url),
        drive_len(trim(path)) > 0,
    ensures
        url == file_url(trim(path)) || url == file_url(plain_join(dir, trim(path))),
{
}

/// The `file://` URL of the path `path` from the directory `dir`, on Windows or elsewhere.
pub open spec fn file_url_on(path: Seq<char>, dir: Seq<char>, windows: bool) -> Seq<char> {
    file_url(joined_on(dir, trim(path), windows))
}

/// The URL of a file is one of two texts that its path and its directory determine, one for each
/// kind of system.
pub proof fn lemma_file_url_on_systems(path: Seq<char>, dir: Seq<char>, url: Seq<char>)
    requires
        is_file_url_of(path, dir, url),
        !is_verbatim(dir),
        !is_verbatim(trim(path)),
    ensures
        url == file_url_on(path, dir, false) || url == file_url_on(path, dir, true),
{
    let full = choose|full: Seq<char>| #[trigger]
        is_joined(dir, trim(path), full) && url == file_url(full);
    lemma_joined_on_systems(dir, trim(path), full);
}

/// On each system the directory plays no part in the URL of an absolute path, and whitespace
/// around a path plays none in its URL.
pub proof fn lemma_absolute_file_url(path: Seq<char>, dir: Seq<char>, windows: bool)
    ensures
        is_absolute_on(trim(path), windows) ==> file_url_on(path, dir, windows) == file_url(
            trim(path),
        ),
        file_url_on(trim(path), dir, windows) == file_url_on(path, dir, windows),
{
    lemma_trimmed(path);
    if is_absolute_on(trim(path), windows) {
        lemma_absolute_join(dir, trim(path), windows);
    }
}

/// A URL of a file begins with `file:///`, holds no backslash and carries a scheme, and whitespace
/// around the path plays no part in it.
pub proof fn lemma_file_url_shape(path: Seq<char>, dir: Seq<char>, url: Seq<char>)
    requires
        is_file_url_of(path, dir, url),
    ensures
        "file:///"@.is_prefix_of(url),
        !url.contains('\\'),
        carries_scheme(url),
        is_file_url_of(trim(path), dir, url),
{
    let full = choose|full: Seq<char>| #[trigger]
        is_joined(dir, trim(path), full) && url == file_url(full);
    let s = slashed(full);
    reveal_strlit("file://");
    reveal_strlit("file:///");
    lemma_trimmed(path);
    assert("file:///"@.is_prefix_of(url)) by {
        assert(url.take(8) =~= "file:///"@);
    }
    assert("file://"@.is_prefix_of(url)) by {
        assert(url.take(7) =~= "file://"@);
    }
    assert forall|i: int| 0 <= i < url.len() implies url[i] != '\\' by {
        let n = url.len() - s.len();
        if i >= n {
            assert(url[i] == s[i - n]);
        }
    }
    assert(is_joined(dir, trim(trim(path)), full));
}

/// The `file://` URL of a path with the text `path`.
pub fn url_of_path(path: &str) -> (url: String)
    ensures
        url@ == file_url(path@),
{
    let chars = to_chars(path);
    let mut s: Vec<char> = Vec::new();
    let mut i: usize = 0;
    while i < chars.len()
        invariant
            i <= chars.len(),
            chars@ == path@,
            s@ == slashed(path@).take(i as int),
        decreases chars.len() - i,
    {
        let c = if chars[i] == '\\' {
            '/'
        } else {
            chars[i]
        };
        s.push(c);
        i += 1;
        assert(slashed(path@).take(i as int) =~= slashed(path@).take(i - 1).push(c));
    }
    assert(slashed(path@).take(i as int) =~= slashed(path@));
    let mut out: Vec<char> = Vec::new();
    if s.len() > 0 && s[0] == '/' {
        push_str(&mut out, "file://");
    } else {
        push_str(&mut out, "file:///");
    }
    push_chars(&mut out, s.as_slice());
    assert(out@ =~= file_url(path@));
    to_text(out.as_slice())
}

/// The `file://` URL of the path `path`, taken relative to the directory `base_dir` unless the
/// operating system reads it as absolute.
pub fn to_file_url(path: &str, base_dir: &str) -> (url: String)
    ensures
        is_file_url_of(path@, base_dir@, url@),
        is_plain_dir(base_dir@) && is_plain_relative(trim(path@)) ==> url@ == file_url(
            plain_join(base_dir@, trim(path@)),
        ),
{
    let chars = to_chars(path);
    let trimmed = to_text(trim_chars(chars.as_slice()));
    let full = if path_is_absolute(trimmed.as_str()) {
        trimmed
    } else {
        path_join(base_dir, trimmed.as_str())
    };
    let url = url_of_path(full.as_str());
    proof {
        assert(is_joined(base_dir@, trim(path@), full@));
        if is_plain_dir(base_dir@) && is_plain_relative(trim(path@)) {
            lemma_plain_file_url(path@, base_dir@, url@);
        }
    }
    url
}

/// The URL and the title that stand between the parentheses of an image, or behind the colon of
/// a reference: the title is what follows the first whitespace.
pub open spec fn url_and_title(inside: Seq<char>) -> (Seq<char>, Seq<char>) {
    match find_space(inside, 0) {
        Some(i) => (trim(inside.take(i)), trim(inside.skip(i))),
        None => (trim(inside), seq![]),
    }
}

/// A title with the space that parts it from the URL, or nothing where there is no title.
pub open spec fn spaced_title(title: Seq<char>) -> Seq<char> {
    if title.len() == 0 {
        seq![]
    } else {
        seq![' '] + title
    }
}

/// A URL that is a local path.
pub open spec fn is_local(url: Seq<char>) -> bool {
    url.len() > 0 && !carries_scheme(url)
}

/// The parts of a line `[id]: path "title"` that defines a reference to a local path.
pub open spec fn reference_parts(line: Seq<char>) -> Option<Seq<Part<Seq<char>>>> {
    let t = trim_start(line);
    if t.len() == 0 || t[0] != '[' {
        None
    } else {
        match find_pair(t, 0, ']', ':') {
            None => None,
            Some(e) => {
                let rest = t.skip(e + 2);
                let (url, title) = url_and_title(trim_start(line_body(rest)));
                if is_local(url) {
                    Some(
                        seq![
                            Part::Text(line.take(line.len() - t.len() + e + 2).push(' ')),
                            Part::Uri(url),
                            Part::Text(spaced_title(title) + line_ending(rest)),
                        ],
                    )
                } else {
                    None
                }
            },
        }
    }
}

/// The parts of `line` from the place `from` on, where `![alt](url "title")` is an image. An
/// image behind a backslash is none.
pub open spec fn inline_parts(line: Seq<char>, from: int) -> Seq<Part<Seq<char>>>
    decreases line.len() - from,
    when 0 <= from <= line.len()
{
    proof {
        lemma_inline_progress(line, from);
    }
    match find_pair(line, from, '!', '[') {
        None => seq![Part::Text(line.skip(from))],
        Some(b) => if b > 0 && line[b - 1] == '\\' {
            seq![Part::Text(line.subrange(from, b + 2))] + inline_parts(line, b + 2)
        } else {
            match find_char(line, b + 2, ']') {
                None => seq![Part::Text(line.skip(from))],
                Some(a) => if !(a + 1 < line.len() && line[a + 1] == '(') {
                    seq![Part::Text(line.subrange(from, a + 1))] + inline_parts(line, a + 1)
                } else {
                    match find_char(line, a + 2, ')') {
                        None => seq![Part::Text(line.skip(from))],
                        Some(c) => image_parts_at(line, from, a, c) + inline_parts(line, c + 1),
                    }
                },
            }
        },
    }
}

/// The parts of `line` from `from` up to the parenthesis at `c` that closes an image whose
/// alternative text ends at `a`.
pub open spec fn image_parts_at(line: Seq<char>, from: int, a: int, c: int) -> Seq<Part<Seq<char>>> {
    let (url, title) = url_and_title(line.subrange(a + 2, c));
    seq![
        Part::Text(line.subrange(from, a + 2)),
        if is_local(url) {
            Part::Uri(url)
        } else {
            Part::Text(url)
        },
        Part::Text(spaced_title(title).push(')')),
    ]
}

/// The places that `inline_parts` goes on from lie ahead.
pub proof fn lemma_inline_progress(line: Seq<char>, from: int)
    requires
        0 <= from <= line.len(),
    ensures
        find_pair(line, from, '!', '[') matches Some(b) ==> {
            &&& from <= b
            &&& b + 2 <= line.len()
            &&& find_char(line, b + 2, ']') matches Some(a) ==> {
                &&& b + 2 <= a < line.len()
                &&& find_char(line, a + 2, ')') matches Some(c) ==> a + 2 <= c < line.len()
            }
        },
{
    lemma_find_pair(line, from, '!', '[');
    if let Some(b) = find_pair(line, from, '!', '[') {
        lemma_find_char(line, b + 2, ']');
        if let Some(a) = find_char(line, b + 2, ']') {
            lemma_find_char(line, a + 2, ')');
        }
    }
}

/// The parts of a line.
pub open spec fn line_parts(line: Seq<char>) -> Seq<Part<Seq<char>>> {
    match reference_parts(line) {
        Some(parts) => parts,
        None => inline_parts(line, 0),
    }
}

/// The parts of the lines `ls`.
pub open spec fn parts_of_lines(ls: Seq<Seq<char>>) -> Seq<Part<Seq<char>>>
    decreases ls.len(),
{
    if ls.len() == 0 {
        seq![]
    } else {
        parts_of_lines(ls.drop_last()) + line_parts(ls.last())
    }
}

/// The parts of a markdown text.
pub open spec fn parts_of(content: Seq<char>) -> Seq<Part<Seq<char>>> {
    parts_of_lines(pieces(content))
}

/// The URIs among `parts`, in order.
pub open spec fn uris(parts: Seq<Part<Seq<char>>>) -> Seq<Seq<char>>
    decreases parts.len(),
{
    if parts.len() == 0 {
        seq![]
    } else {
        match parts.last() {
            Part::Text(_) => uris(parts.drop_last()),
            Part::Uri(u) => uris(parts.drop_last()).push(u),
        }
    }
}

/// The text of `parts` with the URIs replaced by `urls`, one by one.
pub open spec fn filled(parts: Seq<Part<Seq<char>>>, urls: Seq<Seq<char>>) -> Seq<char>
    decreases parts.len(),
{
    if parts.len() == 0 {
        seq![]
    } else {
        match parts.last() {
            Part::Text(t) => filled(parts.drop_last(), urls) + t,
            Part::Uri(_) => filled(parts.drop_last(), urls.drop_last()) + urls.last(),
        }
    }
}

proof fn lemma_part_views_push(parts: Seq<Part<String>>, part: Part<String>)
    ensures
        part_views(parts.push(part)) == part_views(parts).push(part@),
{
    assert(part_views(parts.push(part)) =~= part_views(parts).push(part@));
}

fn push_part(out: &mut Vec<Part<String>>, part: Part<String>)
    ensures
        part_views(final(out)@) == part_views(old(out)@).push(part@),
{
    proof {
        lemma_part_views_push(out@, part);
    }
    out.push(part);
}

fn split_title(inside: &[char]) -> (r: (&[char], &[char]))
    ensures
        (r.0@, r.1@) == url_and_title(inside@),
{
    match position_of_space(inside) {
        Some(i) => (
            trim_chars(slice_subrange(inside, 0, i)),
            trim_chars(slice_subrange(inside, i, inside.len())),
        ),
        None => {
            let none = slice_subrange(inside, 0, 0);
            assert(none@ =~= seq![]);
            (trim_chars(inside), none)
        },
    }
}

fn url_is_local(url: &[char]) -> (b: bool)
    ensures
        b == is_local(url@),
{
    url.len() > 0 && !chars_carry_scheme(url)
}

fn push_title(out: &mut Vec<char>, title: &[char])
    ensures
        final(out)@ == old(out)@ + spaced_title(title@),
{
    if title.len() > 0 {
        out.push(' ');
        push_chars(out, title);
    }
    assert(out@ =~= old(out)@ + spaced_title(title@));
}

/// Appends the parts of `line` to `out` if it defines a reference to a local path.
fn push_reference(out: &mut Vec<Part<String>>, line: &[char]) -> (done: bool)
    ensures
        match reference_parts(line@) {
            Some(parts) => done && part_views(final(out)@) == part_views(old(out)@) + parts,
            None => !done && final(out)@ == old(out)@,
        },
{
    let indent = leading_space(line);
    let t = slice_subrange(line, indent, line.len());
    if t.len() == 0 || t[0] != '[' {
        return false;
    }
    let e = match position_of_pair(t, 0, ']', ':') {
        Some(e) => e,
        None => return false,
    };
    let rest = slice_subrange(t, e + 2, t.len());
    let (url, title) = split_title(trim_start_chars(body_of(rest)));
    if !url_is_local(url) {
        return false;
    }
    let mut head: Vec<char> = Vec::new();
    push_chars(&mut head, slice_subrange(line, 0, indent + e + 2));
    head.push(' ');
    let mut foot: Vec<char> = Vec::new();
    push_title(&mut foot, title);
    push_chars(&mut foot, ending_of(rest));
    proof {
        assert(head@ =~= line@.take(line@.len() - t@.len() + e + 2).push(' '));
        assert(foot@ =~= spaced_title(title@) + line_ending(rest@));
    }
    push_part(out, Part::Text(to_text(head.as_slice())));
    push_part(out, Part::Uri(to_text(url)));
    push_part(out, Part::Text(to_text(foot.as_slice())));
    proof {
        assert(part_views(out@) =~= part_views(old(out)@) + reference_parts(line@)->0);
    }
    true
}

/// Appends the parts of `line` to `out`, where images stand inside the line.
fn push_inline(out: &mut Vec<Part<String>>, line: &[char])
    ensures
        part_views(final(out)@) == part_views(old(out)@) + inline_parts(line@, 0),
{
    let len = line.len();
    let mut from: usize = 0;
    loop
        invariant
            len == line@.len(),
            from <= line@.len(),
            part_views(out@) + inline_parts(line@, from as int) == part_views(old(out)@)
                + inline_parts(line@, 0),
        ensures
            inline_parts(line@, from as int) == seq![Part::Text(line@.skip(from as int))],
        decreases line@.len() - from,
    {
        proof {
            lemma_inline_progress(line@, from as int);
        }
        let ghost before = part_views(out@);
        let b = match position_of_pair(line, from, '!', '[') {
            Some(b) => b,
            None => break,
        };
        if b > 0 && line[b - 1] == '\\' {
            push_part(out, Part::Text(to_text(slice_subrange(line, from, b + 2))));
            proof {
                assert(part_views(out@) + inline_parts(line@, b + 2) =~= before + inline_parts(
                    line@,
                    from as int,
                ));
            }
            from = b + 2;
            continue;
        }
        let a = match position_of(line, b + 2, ']') {
            Some(a) => a,
            None => break,
        };
        if a + 1 >= len || line[a + 1] != '(' {
            push_part(out, Part::Text(to_text(slice_subrange(line, from, a + 1))));
            proof {
                assert(part_views(out@) + inline_parts(line@, a + 1) =~= before + inline_parts(
                    line@,
                    from as int,
                ));
            }
            from = a + 1;
            continue;
        }
        let c = match position_of(line, a + 2, ')') {
            Some(c) => c,
            None => break,
        };
        let (url, title) = split_title(slice_subrange(line, a + 2, c));
        let mut foot: Vec<char> = Vec::new();
        push_title(&mut foot, title);
        foot.push(')');
        assert(foot@ =~= spaced_title(title@).push(')'));
        push_part(out, Part::Text(to_text(slice_subrange(line, from, a + 2))));
        if url_is_local(url) {
            push_part(out, Part::Uri(to_text(url)));
        } else {
            push_part(out, Part::Text(to_text(url)));
        }
        push_part(out, Part::Text(to_text(foot.as_slice())));
        proof {
            assert(part_views(out@) + inline_parts(line@, c + 1) =~= before + inline_parts(
                line@,
                from as int,
            ));
        }
        from = c + 1;
    }
    let ghost before = part_views(out@);
    push_part(out, Part::Text(to_text(slice_subrange(line, from, line.len()))));
    proof {
        assert(part_views(out@) =~= before + inline_parts(line@, from as int));
    }
}

fn push_line(out: &mut Vec<Part<String>>, line: &[char])
    ensures
        part_views(final(out)@) == part_views(old(out)@) + line_parts(line@),
{
    if !push_reference(out, line) {
        push_inline(out, line);
    }
}

/// The parts of a line.
pub fn parts_of_line(line: &[char]) -> (out: Vec<Part<String>>)
    ensures
        part_views(out@) == line_parts(line@),
{
    let mut out: Vec<Part<String>> = Vec::new();
    push_line(&mut out, line);
    assert(part_views(out@) =~= line_parts(line@));
    out
}

/// The parts of a markdown text.
pub fn image_parts(content: &str) -> (out: Vec<Part<String>>)
    ensures
        part_views(out@) == parts_of(content@),
{
    let chars = to_chars(content);
    let all = pieces_of(chars.as_slice());
    let mut out: Vec<Part<String>> = Vec::new();
    let mut i: usize = 0;
    let ghost ls = pieces(content@);
    assert(part_views(out@) =~= parts_of_lines(ls.take(0)));
    while i < all.len()
        invariant
            i <= all.len(),
            all@.len() == ls.len(),
            forall|j: int| 0 <= j < all@.len() ==> (#[trigger] all@[j])@ == ls[j],
            part_views(out@) == parts_of_lines(ls.take(i as int)),
        decreases all.len() - i,
    {
        push_line(&mut out, all[i]);
        i += 1;
        proof {
            assert(ls.take(i as int).drop_last() =~= ls.take(i - 1));
        }
    }
    assert(ls.take(ls.len() as int) =~= ls);
    out
}

/// The text of `parts` with the URIs replaced by `urls`, one by one.
pub fn fill_uris(parts: &Vec<Part<String>>, urls: &Vec<String>) -> (out: String)
    requires
        urls@.len() == uris(part_views(parts@)).len(),
    ensures
        out@ == filled(part_views(parts@), text_views(urls@)),
{
    let ghost all = part_views(parts@);
    let ghost us = text_views(urls@);
    let mut out: Vec<char> = Vec::new();
    let mut i: usize = 0;
    let mut k: usize = 0;
    assert(out@ =~= filled(all.take(0), us.take(0)));
    assert(all.take(all.len() as int) =~= all);
    while i < parts.len()
        invariant
            i <= parts.len(),
            k == uris(all.take(i as int)).len(),
            k <= urls.len(),
            us.len() == uris(all.take(parts@.len() as int)).len(),
            all == part_views(parts@),
            us == text_views(urls@),
            out@ == filled(all.take(i as int), us.take(k as int)),
        decreases parts.len() - i,
    {
        proof {
            assert(all.take(i + 1).drop_last() =~= all.take(i as int));
            assert(all.take(i + 1).last() == parts@[i as int]@);
            lemma_uris_grow(all, i + 1, parts@.len() as int);
        }
        match &parts[i] {
            Part::Text(t) => {
                push_str(&mut out, t.as_str());
            },
            Part::Uri(_) => {
                push_str(&mut out, urls[k].as_str());
                k += 1;
                proof {
                    assert(us.take(k as int).drop_last() =~= us.take(k - 1));
                    assert(us.take(k as int).last() == us[k - 1]);
                }
            },
        }
        i += 1;
    }
    assert(us.take(us.len() as int) =~= us);
    to_text(out.as_slice())
}

proof fn lemma_uris_grow(parts: Seq<Part<Seq<char>>>, i: int, n: int)
    requires
        0 <= i <= n <= parts.len(),
    ensures
        uris(parts.take(i)).len() <= uris(parts.take(n)).len(),
    decreases n - i,
{
    if i < n {
        lemma_uris_grow(parts, i, n - 1);
        assert(parts.take(n).drop_last() =~= parts.take(n - 1));
    }
}

/// The URIs among `parts`, in order.
pub fn uris_of(parts: &Vec<Part<String>>) -> (out: Vec<String>)
    ensures
        text_views(out@) == uris(part_views(parts@)),
{
    let ghost all = part_views(parts@);
    let mut out: Vec<String> = Vec::new();
    let mut i: usize = 0;
    assert(text_views(out@) =~= uris(all.take(0)));
    while i < parts.len()
        invariant
            i <= parts.len(),
            all == part_views(parts@),
            text_views(out@) == uris(all.take(i as int)),
        decreases parts.len() - i,
    {
        let ghost before = out@;
        proof {
            assert(all.take(i + 1).drop_last() =~= all.take(i as int));
            assert(all.take(i + 1).last() == parts@[i as int]@);
        }
        if let Part::Uri(u) = &parts[i] {
            out.push(u.clone());
            assert(text_views(out@) =~= text_views(before).push(u@));
        }
        i += 1;
    }
    assert(all.take(all.len() as int) =~= all);
    out
}

/// The `file://` URLs of the URIs among `parts`, taken relative to the directory `base_dir`.
pub fn file_urls(parts: &Vec<Part<String>>, base_dir: &str) -> (urls: Vec<String>)
    ensures
        are_file_urls(uris(part_views(parts@)), base_dir@, text_views(urls@)),
{
    let paths = uris_of(parts);
    let mut urls: Vec<String> = Vec::new();
    let mut i: usize = 0;
    while i < paths.len()
        invariant
            i <= paths.len(),
            urls@.len() == i,
            forall|k: int|
                0 <= k < i ==> is_file_url_of(paths@[k]@, base_dir@, (#[trigger] urls@[k])@),
        decreases paths.len() - i,
    {
        urls.push(to_file_url(paths[i].as_str(), base_dir));
        i += 1;
    }
    proof {
        let us = text_views(urls@);
        assert forall|k: int| 0 <= k < us.len() implies is_file_url_of(
            uris(part_views(parts@))[k],
            base_dir@,
            #[trigger] us[k],
        ) by {
            assert(us[k] == urls@[k]@);
            assert(text_views(paths@)[k] == paths@[k]@);
        }
    }
    urls
}

/// Whether `urls` are the URLs of the files that `paths` lead to from the directory `dir`.
pub open spec fn are_file_urls(
    paths: Seq<Seq<char>>,
    dir: Seq<char>,
    urls: Seq<Seq<char>>,
) -> bool {
    urls.len() == paths.len() && forall|k: int|
        0 <= k < urls.len() ==> is_file_url_of(paths[k], dir, #[trigger] urls[k])
}

/// The URLs that an ordinary directory `dir` gives to the relative paths `paths`.
pub open spec fn plain_urls(paths: Seq<Seq<char>>, dir: Seq<char>) -> Seq<Seq<char>> {
    paths.map_values(|p: Seq<char>| file_url(plain_join(dir, trim(p))))
}

/// What `resolve_image_uris` may return: the text with each URI that is a local path replaced by
/// a `file://` URL of that path.
pub open spec fn is_resolved(content: Seq<char>, dir: Seq<char>, out: Seq<char>) -> bool {
    let paths = uris(parts_of(content));
    exists|urls: Seq<Seq<char>>|
        urls.len() == paths.len() && (forall|k: int|
            0 <= k < urls.len() ==> is_file_url_of(paths[k], dir, #[trigger] urls[k])) && out
            == #[trigger] filled(parts_of(content), urls)
}

/// `content` with the URIs of local images turned into absolute `file://` URLs, both in
/// `![alt](path "title")` and in definitions `[id]: path "title"`. A URI that carries a scheme
/// stays as it is.
pub fn resolve_image_uris(content: &str, base_dir: &str) -> (out: String)
    ensures
        is_resolved(content@, base_dir@, out@),
        is_plain_dir(base_dir@) && (forall|k: int|
            0 <= k < uris(parts_of(content@)).len() ==> is_plain_relative(
                trim(#[trigger] uris(parts_of(content@))[k]),
            )) ==> out@ == filled(
            parts_of(content@),
            plain_urls(uris(parts_of(content@)), base_dir@),
        ),
{
    let parts = image_parts(content);
    let ghost all = part_views(parts@);
    let ghost paths = uris(all);
    let urls = file_urls(&parts, base_dir);
    let out = fill_uris(&parts, &urls);
    proof {
        let us = text_views(urls@);
        assert(out@ == filled(all, us));
        if is_plain_dir(base_dir@) && (forall|k: int|
            0 <= k < paths.len() ==> is_plain_relative(trim(#[trigger] paths[k]))) {
            assert forall|k: int| 0 <= k < us.len() implies us[k] == plain_urls(
                paths,
                base_dir@,
            )[k] by {
                assert(is_plain_relative(trim(paths[k])));
                lemma_plain_file_url(paths[k], base_dir@, us[k]);
            }
            assert(us =~= plain_urls(paths, base_dir@));
        }
    }
    out
}

/// Only local paths are ever replaced: no URI that is handed on is empty or carries a scheme.
pub proof fn lemma_only_local_uris(content: Seq<char>)
    ensures
        forall|k: int|
            0 <= k < uris(parts_of(content)).len() ==> is_local(
                #[trigger] uris(parts_of(content))[k],
            ),
{
    lemma_lines_only_local(pieces(content));
    lemma_uris_of_local(parts_of(content));
}

/// Parts whose URIs are all local paths.
pub open spec fn all_local(parts: Seq<Part<Seq<char>>>) -> bool {
    forall|i: int| 0 <= i < parts.len() ==> (#[trigger] parts[i] matches Part::Uri(u) ==> is_local(u))
}

proof fn lemma_uris_of_local(parts: Seq<Part<Seq<char>>>)
    requires
        all_local(parts),
    ensures
        forall|k: int| 0 <= k < uris(parts).len() ==> is_local(#[trigger] uris(parts)[k]),
    decreases parts.len(),
{
    if parts.len() > 0 {
        let front = parts.drop_last();
        assert forall|i: int| 0 <= i < front.len() implies (#[trigger] front[i] matches Part::Uri(u)
            ==> is_local(u)) by {
            assert(front[i] == parts[i]);
        }
        lemma_uris_of_local(front);
        let last = parts[parts.len() - 1];
        assert(last matches Part::Uri(u) ==> is_local(u));
        assert forall|k: int| 0 <= k < uris(parts).len() implies is_local(
            #[trigger] uris(parts)[k],
        ) by {
            if k < uris(front).len() {
                assert(uris(parts)[k] == uris(front)[k]);
            }
        }
    }
}

proof fn lemma_lines_only_local(ls: Seq<Seq<char>>)
    ensures
        all_local(parts_of_lines(ls)),
    decreases ls.len(),
{
    if ls.len() > 0 {
        lemma_lines_only_local(ls.drop_last());
        lemma_inline_only_local(ls.last(), 0);
    }
}

proof fn lemma_inline_only_local(line: Seq<char>, from: int)
    requires
        0 <= from <= line.len(),
    ensures
        all_local(inline_parts(line, from)),
    decreases line.len() - from,
{
    lemma_inline_progress(line, from);
    if let Some(b) = find_pair(line, from, '!', '[') {
        if b > 0 && line[b - 1] == '\\' {
            lemma_inline_only_local(line, b + 2);
        } else if let Some(a) = find_char(line, b + 2, ']') {
            if !(a + 1 < line.len() && line[a + 1] == '(') {
                lemma_inline_only_local(line, a + 1);
            } else if let Some(c) = find_char(line, a + 2, ')') {
                lemma_inline_only_local(line, c + 1);
            }
        }
    }
}

/// A text without images and without definitions of local references stays as it is, whatever
/// the directory.
pub proof fn lemma_text_without_images(content: Seq<char>, dir: Seq<char>, out: Seq<char>)
    requires
        forall|i: int|
            0 <= i < pieces(content).len() ==> find_pair(
                #[trigger] pieces(content)[i],
                0,
                '!',
                '[',
            ) is None && reference_parts(pieces(content)[i]) is None,
        is_resolved(content, dir, out),
    ensures
        out == content,
{
    let ls = pieces(content);
    lemma_parts_without_images(ls);
    lemma_pieces_make_text(content);
    let paths = uris(parts_of(content));
    let urls = choose|urls: Seq<Seq<char>>|
        urls.len() == paths.len() && (forall|k: int|
            0 <= k < urls.len() ==> is_file_url_of(paths[k], dir, #[trigger] urls[k])) && out
            == #[trigger] filled(parts_of(content), urls);
    assert(urls =~= seq![]);
}

proof fn lemma_parts_without_images(ls: Seq<Seq<char>>)
    requires
        forall|i: int|
            0 <= i < ls.len() ==> find_pair(#[trigger] ls[i], 0, '!', '[') is None
                && reference_parts(ls[i]) is None,
    ensures
        uris(parts_of_lines(ls)) == Seq::<Seq<char>>::empty(),
        filled(parts_of_lines(ls), seq![]) == ls.flatten(),
    decreases ls.len(),
{
    if ls.len() == 0 {
    } else {
        let front = ls.drop_last();
        lemma_parts_without_images(front);
        let last = ls.last();
        assert(last == ls[ls.len() - 1]);
        let parts = parts_of_lines(ls);
        assert(last.skip(0) =~= last);
        assert(inline_parts(last, 0) == seq![Part::Text(last)]);
        assert(parts.drop_last() =~= parts_of_lines(front));
        assert(front.push(last) =~= ls);
        front.lemma_flatten_push(last);
    }
}

} // verus!
