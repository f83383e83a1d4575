//! The text of a document as it is shown: the images in it lead to files, and its figures have
//! captions.
//!
//! Whether a line is a figure is told from what its author wrote, and not from the directory that
//! the document stands in.
use crate::figures::{
    figure_of, html_block, md_figure, parse_figure_line, push_html_block, push_md_figure,
};
use crate::image_laws::lemma_resolving_both;
use crate::images::{
    file_url, fill_uris, filled, has_uri_scheme, is_file_url_of, is_local, is_resolved,
    lemma_plain_file_url, line_parts, parts_of, parts_of_line, parts_of_lines, plain_urls,
    resolve_image_uris, to_file_url, uris, uris_of,
};
use crate::lines::{
    body_of, ends_line, is_piece, lemma_flatten_take, lemma_one_piece, lemma_pieces_are_lines,
    lemma_pieces_make_text, line_body, pieces, pieces_of,
};
use crate::paths::{is_plain_dir, is_plain_relative, plain_join};
use crate::text::{push_str, to_chars, to_text, trim};
use vstd::prelude::*;

verus! {

/// A line as its author wrote it, with one space at most between the URL and the title of an image.
pub open spec fn as_written(line: Seq<char>) -> Seq<char> {
    filled(line_parts(line), uris(line_parts(line)))
}

/// The alternative text, the URL and the caption of a line of a document that is a figure.
pub open spec fn figure_in(line: Seq<char>) -> Option<(Seq<char>, Seq<char>, Seq<char>)> {
    figure_of(line_body(as_written(line)))
}

/// Whether `target` is what the URL `url` of an image in the directory `dir` leads to: a local path
/// leads to a file, and any other URL stays as it is.
pub open spec fn is_target_of(url: Seq<char>, dir: Seq<char>, target: Seq<char>) -> bool {
    if is_local(url) {
        is_file_url_of(url, dir, target)
    } else {
        target == url
    }
}

/// What stands in place of `line`, which is a figure, in the book or in the viewer.
pub open spec fn figure_text(
    line: Seq<char>,
    alt: Seq<char>,
    url: Seq<char>,
    caption: Seq<char>,
    html: bool,
) -> Seq<char> {
    if html {
        html_block(line, alt, url, caption)
    } else {
        md_figure(line, alt, url, caption)
    }
}

/// Whether `out` stands for `line`, which is a figure of a document in the directory `dir`.
pub open spec fn is_shown_figure(
    line: Seq<char>,
    alt: Seq<char>,
    url: Seq<char>,
    caption: Seq<char>,
    dir: Seq<char>,
    html: bool,
    out: Seq<char>,
) -> bool {
    exists|target: Seq<char>| #[trigger]
        is_target_of(url, dir, target) && out == figure_text(line, alt, target, caption, html)
}

/// Whether `out` stands for `line` of a document in the directory `dir`: a figure is shown with its
/// caption, and in any other line the images lead to files.
pub open spec fn is_shown_line(
    line: Seq<char>,
    dir: Seq<char>,
    html: bool,
    out: Seq<char>,
) -> bool {
    match figure_in(line) {
        None => is_resolved(line, dir, out),
        Some((alt, url, caption)) => is_shown_figure(line, alt, url, caption, dir, html, out),
    }
}

/// Whether `outs` stand for the lines `ls` of a document in the directory `dir`.
pub open spec fn are_shown_lines(
    ls: Seq<Seq<char>>,
    dir: Seq<char>,
    html: bool,
    outs: Seq<Seq<char>>,
) -> bool {
    outs.len() == ls.len() && forall|i: int|
        0 <= i < outs.len() ==> is_shown_line(ls[i], dir, html, #[trigger] outs[i])
}

/// Whether `out` is the text of a document in the directory `dir` as it is shown, in the book or in
/// the viewer, where `content` was read.
pub open spec fn is_shown_text(
    content: Seq<char>,
    dir: Seq<char>,
    html: bool,
    out: Seq<char>,
) -> bool {
    exists|outs: Seq<Seq<char>>|
        are_shown_lines(pieces(content), dir, html, outs) && out == #[trigger] outs.flatten()
}

fn target_of(url: &str, dir: &str) -> (target: String)
    ensures
        is_target_of(url@, dir@, target@),
{
    let chars = to_chars(url);
    if chars.len() == 0 || has_uri_scheme(url) {
        to_text(chars.as_slice())
    } else {
        to_file_url(url, dir)
    }
}

fn push_shown_line(out: &mut Vec<char>, line: &[char], dir: &str, html: bool) -> (shown: Ghost<
    Seq<char>,
>)
    ensures
        is_shown_line(line@, dir@, html, shown@),
        final(out)@ == old(out)@ + shown@,
{
    let parts = parts_of_line(line);
    let own = uris_of(&parts);
    let written = fill_uris(&parts, &own);
    assert(written@ == as_written(line@));
    let chars = to_chars(written.as_str());
    let body = to_text(body_of(chars.as_slice()));
    match parse_figure_line(body.as_str()) {
        Some((alt, url, caption)) => {
            let target = target_of(url, dir);
            if html {
                push_html_block(out, line, alt, target.as_str(), caption.as_str());
            } else {
                push_md_figure(out, line, alt, target.as_str(), caption.as_str());
            }
            let ghost shown = figure_text(line@, alt@, target@, caption@, html);
            assert(figure_in(line@) == Some((alt@, url@, caption@)));
            assert(is_shown_figure(line@, alt@, url@, caption@, dir@, html, shown));
            Ghost(shown)
        },
        None => {
            let text = to_text(line);
            let resolved = resolve_image_uris(text.as_str(), dir);
            push_str(out, resolved.as_str());
            assert(figure_in(line@) is None);
            Ghost(resolved@)
        },
    }
}

fn shown_text(content: &str, dir: &str, html: bool) -> (out: String)
    ensures
        is_shown_text(content@, dir@, html, out@),
{
    let chars = to_chars(content);
    let all = pieces_of(chars.as_slice());
    let ghost ls = pieces(content@);
    let ghost mut outs: Seq<Seq<char>> = seq![];
    let mut out: Vec<char> = Vec::new();
    let mut i: usize = 0;
    assert(out@ =~= outs.flatten());
    while i < all.len()
        invariant
            i <= all.len(),
            all@.len() == ls.len(),
            forall|j: int| 0 <= j < all@.len() ==> (#[trigger] all@[j])@ == ls[j],
            are_shown_lines(ls.take(i as int), dir@, html, outs),
            out@ == outs.flatten(),
        decreases all.len() - i,
    {
        let shown = push_shown_line(&mut out, all[i], dir, html);
        proof {
            outs.lemma_flatten_push(shown@);
            outs = outs.push(shown@);
        }
        i += 1;
    }
    assert(ls.take(ls.len() as int) =~= ls);
    to_text(out.as_slice())
}

/// The text of a document that the book is made from: the images in it lead to files, and its
/// figures are HTML.
pub fn document_text(content: &str, base_dir: &str) -> (out: String)
    ensures
        is_shown_text(content@, base_dir@, true, out@),
{
    shown_text(content, base_dir, true)
}

/// The text of a document that the reader shows: the images in it lead to files, and its figures
/// have captions.
pub fn viewer_text(content: &str, base_dir: &str) -> (out: String)
    ensures
        is_shown_text(content@, base_dir@, false, out@),
{
    shown_text(content, base_dir, false)
}

proof fn lemma_resolved_lines(
    ls: Seq<Seq<char>>,
    dir: Seq<char>,
    outs: Seq<Seq<char>>,
    n: int,
)
    requires
        0 <= n <= ls.len(),
        outs.len() == ls.len(),
        forall|i: int| 0 <= i < ls.len() - 1 ==> (#[trigger] ls[i]).last() == '\n',
        forall|i: int| 0 <= i < ls.len() ==> (#[trigger] ls[i]).len() > 0,
        forall|i: int| 0 <= i < ls.len() ==> is_resolved(ls[i], dir, #[trigger] outs[i]),
    ensures
        is_resolved(ls.take(n).flatten(), dir, outs.take(n).flatten()),
        n < ls.len() ==> ends_line(ls.take(n).flatten()),
    decreases n,
{
    if n == 0 {
        let empty = Seq::<char>::empty();
        assert(ls.take(0).flatten() =~= empty);
        assert(outs.take(0).flatten() =~= empty);
        assert(pieces(empty) =~= seq![]);
        assert(uris(parts_of(empty)) =~= seq![]);
        assert(filled(parts_of(empty), seq![]) =~= empty);
        assert(is_resolved(empty, dir, empty));
    } else {
        lemma_resolved_lines(ls, dir, outs, n - 1);
        assert(is_resolved(ls[n - 1], dir, outs[n - 1]));
        lemma_resolving_both(
            ls.take(n - 1).flatten(),
            ls[n - 1],
            dir,
            outs.take(n - 1).flatten(),
            outs[n - 1],
        );
        lemma_flatten_take(ls, n - 1);
        lemma_flatten_take(outs, n - 1);
    }
}

/// In a document without figures the images lead to files, and nothing else changes.
pub proof fn lemma_document_without_figures(
    content: Seq<char>,
    dir: Seq<char>,
    html: bool,
    out: Seq<char>,
)
    requires
        is_shown_text(content, dir, html, out),
        forall|i: int|
            0 <= i < pieces(content).len() ==> figure_in(#[trigger] pieces(content)[i]) is None,
    ensures
        is_resolved(content, dir, out),
{
    let ls = pieces(content);
    let outs = choose|outs: Seq<Seq<char>>|
        are_shown_lines(ls, dir, html, outs) && out == #[trigger] outs.flatten();
    assert forall|i: int| 0 <= i < ls.len() implies is_resolved(ls[i], dir, #[trigger] outs[i]) by {
        assert(is_shown_line(ls[i], dir, html, outs[i]));
    }
    lemma_pieces_are_lines(content);
    lemma_pieces_make_text(content);
    lemma_resolved_lines(ls, dir, outs, ls.len() as int);
    assert(ls.take(ls.len() as int) =~= ls);
    assert(outs.take(ls.len() as int) =~= outs);
}

/// Whether the images of a line lead to ordinary relative paths.
pub open spec fn has_plain_paths(line: Seq<char>) -> bool {
    let paths = uris(line_parts(line));
    match figure_in(line) {
        None => forall|k: int|
            0 <= k < paths.len() ==> is_plain_relative(trim(#[trigger] paths[k])),
        Some((_, url, _)) => is_local(url) ==> is_plain_relative(trim(url)),
    }
}

/// A line as it is shown, where the directory `dir` and the paths in the line are ordinary ones.
pub open spec fn plainly_shown(line: Seq<char>, dir: Seq<char>, html: bool) -> Seq<char> {
    match figure_in(line) {
        None => filled(line_parts(line), plain_urls(uris(line_parts(line)), dir)),
        Some((alt, url, caption)) => figure_text(
            line,
            alt,
            if is_local(url) {
                file_url(plain_join(dir, trim(url)))
            } else {
                url
            },
            caption,
            html,
        ),
    }
}

proof fn lemma_plain_line(line: Seq<char>, dir: Seq<char>, html: bool, out: Seq<char>)
    requires
        is_piece(line),
        is_shown_line(line, dir, html, out),
        is_plain_dir(dir),
        has_plain_paths(line),
    ensures
        out == plainly_shown(line, dir, html),
{
    match figure_in(line) {
        None => {
            let paths = uris(line_parts(line));
            lemma_one_piece(line);
            assert(seq![line].drop_last() =~= seq![]);
            assert(parts_of_lines(seq![line].drop_last()) =~= seq![]);
            assert(parts_of(line) =~= line_parts(line));
            let urls = choose|urls: Seq<Seq<char>>|
                urls.len() == paths.len() && (forall|k: int|
                    0 <= k < urls.len() ==> is_file_url_of(paths[k], dir, #[trigger] urls[k]))
                    && out == #[trigger] filled(parts_of(line), urls);
            assert forall|k: int| 0 <= k < urls.len() implies urls[k] == plain_urls(
                paths,
                dir,
            )[k] by {
                assert(is_file_url_of(paths[k], dir, urls[k]));
                assert(is_plain_relative(trim(paths[k])));
                lemma_plain_file_url(paths[k], dir, urls[k]);
            }
            assert(urls =~= plain_urls(paths, dir));
        },
        Some((alt, url, caption)) => {
            let target = choose|target: Seq<char>| #[trigger]
                is_target_of(url, dir, target) && out == figure_text(
                    line,
                    alt,
                    target,
                    caption,
                    html,
                );
            if is_local(url) {
                lemma_plain_file_url(url, dir, target);
            }
        },
    }
}

/// Where its directory and the paths of its images are ordinary ones, what is shown of a document
/// is known on every system.
pub proof fn lemma_plain_document(content: Seq<char>, dir: Seq<char>, html: bool, out: Seq<char>)
    requires
        is_shown_text(content, dir, html, out),
        is_plain_dir(dir),
        forall|i: int|
            0 <= i < pieces(content).len() ==> has_plain_paths(#[trigger] pieces(content)[i]),
    ensures
        out == pieces(content).map_values(|l: Seq<char>| plainly_shown(l, dir, html)).flatten(),
{
    let ls = pieces(content);
    let outs = choose|outs: Seq<Seq<char>>|
        are_shown_lines(ls, dir, html, outs) && out == #[trigger] outs.flatten();
    lemma_pieces_are_lines(content);
    assert forall|i: int| 0 <= i < ls.len() implies outs[i] == plainly_shown(ls[i], dir, html) by {
        assert(is_shown_line(ls[i], dir, html, outs[i]));
        assert(has_plain_paths(ls[i]));
        lemma_plain_line(ls[i], dir, html, outs[i]);
    }
    assert(outs =~= ls.map_values(|l: Seq<char>| plainly_shown(l, dir, html)));
}

} // verus!
