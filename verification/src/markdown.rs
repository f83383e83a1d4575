//! Markdown as HTML.
use vstd::prelude::*;

verus! {

/// The HTML that comrak renders from `md`, by the extensions that are on and by whether HTML in
/// the markdown is let through.
pub uninterp spec fn rendered(
    md: Seq<char>,
    table: bool,
    strikethrough: bool,
    autolink: bool,
    tasklist: bool,
    raw_html: bool,
) -> Seq<char>;

/// `comrak::markdown_to_html` renders markdown by the options given to it. The options are comrak's
/// default ones but for four extensions and for whether HTML in the markdown is let through. What
/// the HTML is depends on the markdown and these options alone, and is not said here.
#[verifier::external_body]
fn render(
    md: &str,
    table: bool,
    strikethrough: bool,
    autolink: bool,
    tasklist: bool,
    raw_html: bool,
) -> (html: String)
    ensures
        html@ == rendered(md@, table, strikethrough, autolink, tasklist, raw_html),
{
    let mut options = comrak::Options::default();
    options.extension.table = table;
    options.extension.strikethrough = strikethrough;
    options.extension.autolink = autolink;
    options.extension.tasklist = tasklist;
    options.render.unsafe_ = raw_html;
    comrak::markdown_to_html(md, &options)
}

/// The HTML of the markdown `md` with every extension that documents use. HTML in the markdown is
/// let through, since figures are written as such.
pub open spec fn html_of(md: Seq<char>) -> Seq<char> {
    rendered(md, true, true, true, true, true)
}

/// The HTML of the markdown `md`, with tables, strikethrough, autolinks and task lists, and with
/// the HTML that the markdown holds.
pub fn markdown_to_html(md: &str) -> (html: String)
    ensures
        html@ == html_of(md@),
{
    render(md, true, true, true, true, true)
}

} // verus!
