//! Printing the page of a book to PDF: where the PDF goes, how the browser is asked for it, and
//! what is told of it.
use crate::paths::{is_joined, is_parent_of, path_join, path_parent, slashed, text_of};
use crate::text::{appended, text_views, to_chars, to_text};
use vstd::prelude::*;

verus! {

/// The file name of the PDF of the book with the title `title`.
pub fn pdf_name(title: &str) -> (out: String)
    ensures
        out@ == title@ + ".pdf"@,
{
    appended(title, ".pdf")
}

/// The path of the PDF of the book with the title `title` where none is named: in the directory
/// `dir`.
pub fn default_output(dir: &str, title: &str) -> (out: String)
    ensures
        is_joined(dir@, title@ + ".pdf"@, out@),
{
    let name = pdf_name(title);
    path_join(dir, name.as_str())
}

/// The arguments that make a browser print the page at `html_path` to the PDF at `pdf_path`.
pub open spec fn print_arguments(pdf_path: Seq<char>, html_path: Seq<char>) -> Seq<Seq<char>> {
    seq![
        "--headless=new"@,
        "--disable-gpu"@,
        "--no-sandbox"@,
        "--disable-software-rasterizer"@,
        "--print-to-pdf="@ + pdf_path,
        "file:///"@ + slashed(html_path),
    ]
}

/// The arguments that make a browser print the page at `html_path` to the PDF at `pdf_path`.
pub fn print_args(pdf_path: &str, html_path: &str) -> (out: Vec<String>)
    ensures
        text_views(out@) == print_arguments(pdf_path@, html_path@),
{
    let mut url = to_chars("file:///");
    let path = to_chars(html_path);
    let mut i: usize = 0;
    assert(url@ =~= "file:///"@ + slashed(html_path@).take(0));
    while i < path.len()
        invariant
            i <= path.len(),
            path@ == html_path@,
            url@ == "file:///"@ + slashed(html_path@).take(i as int),
        decreases path.len() - i,
    {
        if path[i] == '\\' {
            url.push('/');
        } else {
            url.push(path[i]);
        }
        i += 1;
        assert(url@ =~= "file:///"@ + slashed(html_path@).take(i as int));
    }
    assert(slashed(html_path@).take(path@.len() as int) =~= slashed(html_path@));
    let mut out: Vec<String> = Vec::new();
    out.push("--headless=new".to_string());
    out.push("--disable-gpu".to_string());
    out.push("--no-sandbox".to_string());
    out.push("--disable-software-rasterizer".to_string());
    out.push(appended("--print-to-pdf=", pdf_path));
    out.push(to_text(url.as_slice()));
    assert(text_views(out@) =~= print_arguments(pdf_path@, html_path@));
    out
}

/// What came of printing to the PDF at `pdf_path`: the path where the browser succeeded or the
/// PDF is there, or else a message with what the browser wrote.
pub fn print_result(success: bool, written: bool, pdf_path: &str, stderr: &str) -> (out: Result<
    String,
    String,
>)
    ensures
        match out {
            Ok(path) => (success || written) && path@ == pdf_path@,
            Err(message) => !success && !written && message@ == "Browser error: "@ + stderr@,
        },
{
    if success || written {
        Ok(pdf_path.to_string())
    } else {
        Err(appended("Browser error: ", stderr))
    }
}

/// What the command line tells of a conversion, and the exit code of the program.
pub fn cli_report(result: &Result<String, String>) -> (out: (String, i32))
    ensures
        match *result {
            Ok(path) => out.0@ == "PDF written: "@ + path@ && out.1 == 0,
            Err(message) => out.0@ == "error: "@ + message@ && out.1 == 1,
        },
{
    match result {
        Ok(path) => (appended("PDF written: ", path.as_str()), 0),
        Err(message) => (appended("error: ", message.as_str()), 1),
    }
}

/// The path of the browser that comes with the program in the directory `dir`.
pub open spec fn is_bundled(dir: Seq<char>, path: Seq<char>) -> bool {
    exists|a: Seq<char>, b: Seq<char>|
        is_joined(dir, "chromium"@, a) && #[trigger] is_joined(a, "chrome-win"@, b)
            && is_joined(b, "chrome.exe"@, path)
}

/// The path of the browser that comes with the program in the directory `dir`.
pub fn bundled_browser(dir: &str) -> (path: String)
    ensures
        is_bundled(dir@, path@),
{
    let a = path_join(dir, "chromium");
    let b = path_join(a.as_str(), "chrome-win");
    let path = path_join(b.as_str(), "chrome.exe");
    assert(is_joined(a@, "chrome-win"@, b@));
    path
}

/// The browsers of the system, in the order in which they are looked for: Chrome, and then Edge.
pub open spec fn system_browsers() -> Seq<Seq<char>> {
    seq![
        "C:\\Program Files\\Google\\Chrome\\Application\\chrome.exe"@,
        "C:\\Program Files (x86)\\Google\\Chrome\\Application\\chrome.exe"@,
        "C:\\Program Files (x86)\\Microsoft\\Edge\\Application\\msedge.exe"@,
        "C:\\Program Files\\Microsoft\\Edge\\Application\\msedge.exe"@,
    ]
}

/// A text on its own, or nothing where it is missing.
pub open spec fn one_or_none(text: Option<Seq<char>>) -> Seq<Seq<char>> {
    match text {
        Some(t) => seq![t],
        None => seq![],
    }
}

/// The browsers in the order in which they are looked for: the one that was installed with the
/// program, the one that lies beside it, and those of the system.
pub open spec fn browser_order(
    installed: Option<Seq<char>>,
    beside: Option<Seq<char>>,
) -> Seq<Seq<char>> {
    one_or_none(installed) + one_or_none(beside) + system_browsers()
}

/// The browsers in the order in which they are looked for, where `installed` is the one that was
/// installed with the program and `beside` the one that lies beside it.
pub fn browser_candidates(installed: Option<String>, beside: Option<String>) -> (out: Vec<String>)
    ensures
        text_views(out@) == browser_order(text_of(installed), text_of(beside)),
{
    let ghost first = text_of(installed);
    let ghost second = text_of(beside);
    let mut out: Vec<String> = Vec::new();
    if let Some(path) = installed {
        out.push(path);
    }
    if let Some(path) = beside {
        out.push(path);
    }
    out.push("C:\\Program Files\\Google\\Chrome\\Application\\chrome.exe".to_string());
    out.push("C:\\Program Files (x86)\\Google\\Chrome\\Application\\chrome.exe".to_string());
    out.push("C:\\Program Files (x86)\\Microsoft\\Edge\\Application\\msedge.exe".to_string());
    out.push("C:\\Program Files\\Microsoft\\Edge\\Application\\msedge.exe".to_string());
    assert(text_views(out@) =~= browser_order(first, second));
    out
}

/// What may be known of the browsers that come with the program at `exe`: `installed` is in the
/// directory above that of the program, `beside` in that directory itself.
pub open spec fn are_bundled(
    exe: Option<Seq<char>>,
    installed: Option<Seq<char>>,
    beside: Option<Seq<char>>,
) -> bool {
    exists|dir: Option<Seq<char>>, root: Option<Seq<char>>| #[trigger]
        are_bundled_in(exe, dir, root, installed, beside)
}

/// `dir` is the directory of the program at `exe`, and `root` the one above it; the browsers
/// `beside` and `installed` lie in them.
pub open spec fn are_bundled_in(
    exe: Option<Seq<char>>,
    dir: Option<Seq<char>>,
    root: Option<Seq<char>>,
    installed: Option<Seq<char>>,
    beside: Option<Seq<char>>,
) -> bool {
    &&& match exe {
        Some(e) => is_parent_of(e, dir),
        None => dir is None,
    }
    &&& match dir {
        Some(d) => is_parent_of(d, root) && beside is Some && is_bundled(d, beside->0),
        None => root is None && beside is None,
    }
    &&& match root {
        Some(r) => installed is Some && is_bundled(r, installed->0),
        None => installed is None,
    }
}

/// The browsers to look for, in order, where `exe` is the path of the program, if it is known.
pub fn browsers(exe: &Option<String>) -> (out: Vec<String>)
    ensures
        exists|installed: Option<Seq<char>>, beside: Option<Seq<char>>|
            are_bundled(text_of(*exe), installed, beside) && text_views(out@)
                == #[trigger] browser_order(installed, beside),
{
    let mut installed: Option<String> = None;
    let mut beside: Option<String> = None;
    let mut dir: Option<String> = None;
    let mut root: Option<String> = None;
    if let Some(path) = exe {
        dir = path_parent(path.as_str());
        if let Some(d) = &dir {
            beside = Some(bundled_browser(d.as_str()));
            root = path_parent(d.as_str());
            if let Some(r) = &root {
                installed = Some(bundled_browser(r.as_str()));
            }
        }
    }
    assert(are_bundled_in(
        text_of(*exe),
        text_of(dir),
        text_of(root),
        text_of(installed),
        text_of(beside),
    ));
    browser_candidates(installed, beside)
}

/// The first of `paths` that is there, where `there` says so of each.
pub open spec fn first_there(paths: Seq<Seq<char>>, there: Seq<bool>) -> Option<Seq<char>>
    decreases paths.len(),
{
    if paths.len() == 0 {
        None
    } else if there[0] {
        Some(paths[0])
    } else {
        first_there(paths.skip(1), there.skip(1))
    }
}

/// The first of `paths` that is there, where `there` says so of each, or a message that there is
/// no browser.
pub fn find_browser(paths: &Vec<String>, there: &Vec<bool>) -> (out: Result<String, String>)
    requires
        paths@.len() == there@.len(),
    ensures
        match out {
            Ok(path) => first_there(text_views(paths@), there@) == Some(path@),
            Err(message) => first_there(text_views(paths@), there@) is None && message@
                == "Chrome/Edge not found — cannot generate PDF."@,
        },
{
    let ghost all = text_views(paths@);
    let mut i: usize = 0;
    assert(all.skip(0) =~= all);
    assert(there@.skip(0) =~= there@);
    while i < paths.len()
        invariant
            i <= paths.len(),
            all == text_views(paths@),
            paths@.len() == there@.len(),
            first_there(all, there@) == first_there(all.skip(i as int), there@.skip(i as int)),
        decreases paths.len() - i,
    {
        assert(all.skip(i as int)[0] == paths@[i as int]@);
        assert(all.skip(i as int).skip(1) =~= all.skip(i + 1));
        assert(there@.skip(i as int).skip(1) =~= there@.skip(i + 1));
        if there[i] {
            return Ok(paths[i].clone());
        }
        i += 1;
    }
    Err("Chrome/Edge not found — cannot generate PDF.".to_string())
}

/// A browser that comes with the program is preferred to those of the system.
pub proof fn lemma_bundled_browser_is_preferred(
    installed: Option<Seq<char>>,
    beside: Option<Seq<char>>,
    there: Seq<bool>,
)
    requires
        there.len() == browser_order(installed, beside).len(),
        exists|i: int|
            0 <= i < (one_or_none(installed) + one_or_none(beside)).len() && #[trigger] there[i],
    ensures
        first_there(browser_order(installed, beside), there) matches Some(path) && (one_or_none(
            installed,
        ) + one_or_none(beside)).contains(path),
{
    let paths = browser_order(installed, beside);
    let own = one_or_none(installed) + one_or_none(beside);
    reveal_with_fuel(first_there, 3);
    assert(paths.skip(1)[0] == paths[1]);
    assert(there.skip(1)[0] == there[1]);
    assert(own.len() > 0 ==> own[0] == paths[0]);
    assert(own.len() > 1 ==> own[1] == paths[1]);
    assert(own.len() <= 2);
}

} // verus!
