//! What command lines ask for, and how a book is printed.
use crate::cli::{behind, dir_book_title, file_title, mode, request, ModeView};
use crate::paths::stem;
use crate::printing::{browser_order, first_there, print_arguments};
use vstd::prelude::*;

verus! {

proof fn lemma_behind(a: Seq<Seq<char>>, flag: Seq<char>, b: Seq<Seq<char>>)
    requires
        !a.contains(flag),
    ensures
        behind(a + (seq![flag] + b), flag) == Some(b),
        behind(a, flag) is None,
    decreases a.len(),
{
    let all = a + (seq![flag] + b);
    if a.len() == 0 {
        assert(all[0] == flag);
        assert(all.skip(1) =~= b);
    } else {
        let rest = a.skip(1);
        assert(a.contains(a[0]));
        assert(all[0] == a[0]);
        assert(all.skip(1) =~= rest + (seq![flag] + b));
        assert(!rest.contains(flag)) by {
            if rest.contains(flag) {
                let k = choose|k: int| 0 <= k < rest.len() && rest[k] == flag;
                assert(a[k + 1] == flag);
            }
        }
        lemma_behind(rest, flag, b);
    }
}

/// Help is given exactly where it is asked for, and the version exactly where it is asked for and
/// help is not.
pub proof fn lemma_help_and_version(args: Seq<Seq<char>>)
    ensures
        mode(args) is Help <==> args.contains("--help"@) || args.contains("-h"@),
        mode(args) is Version <==> !(args.contains("--help"@) || args.contains("-h"@)) && (
        args.contains("--version"@) || args.contains("-V"@)),
{
}

/// Whether `args` ask for help or for the version.
pub open spec fn asks_for_information(args: Seq<Seq<char>>) -> bool {
    args.contains("--help"@) || args.contains("-h"@) || args.contains("--version"@)
        || args.contains("-V"@)
}

/// All arguments behind the first `--to-pdf` say what is to be converted; without it a window is
/// opened on the directory that is named first, if any is.
pub proof fn lemma_conversions_and_windows(a: Seq<Seq<char>>, b: Seq<Seq<char>>)
    requires
        !a.contains("--to-pdf"@),
    ensures
        !asks_for_information(a + (seq!["--to-pdf"@] + b)) ==> mode(a + (seq!["--to-pdf"@] + b))
            == ModeView::ToPdf(b),
        !asks_for_information(a) ==> mode(a) == ModeView::Gui(
            if a.len() == 0 {
                None
            } else {
                Some(a[0])
            },
        ),
{
    lemma_behind(a, "--to-pdf"@, b);
}

/// A path of the PDF stands behind `-o` or `--output`, and the one argument that is left names what
/// is converted. Anything else is an error that says what is wrong.
pub proof fn lemma_arguments(
    flag: Seq<char>,
    x: Seq<char>,
    rest: Seq<Seq<char>>,
    path: Seq<char>,
    input: Option<Seq<char>>,
    output: Option<Seq<char>>,
)
    requires
        flag == "-o"@ || flag == "--output"@,
    ensures
        request(seq![], Some(path), output) == Ok::<(Seq<char>, Option<Seq<char>>), Seq<char>>(
            (path, output),
        ),
        request(seq![], None, output) == Err::<(Seq<char>, Option<Seq<char>>), Seq<char>>(
            "error: --to-pdf requires an input path"@,
        ),
        request(seq![flag, x] + rest, input, output) == request(rest, input, Some(x)),
        request(seq![flag], input, output) == Err::<(Seq<char>, Option<Seq<char>>), Seq<char>>(
            "error: "@ + flag + " requires a value"@,
        ),
        x != "-o"@ && x != "--output"@ ==> request(seq![x] + rest, None, output) == request(
            rest,
            Some(x),
            output,
        ),
        x != "-o"@ && x != "--output"@ ==> request(seq![x] + rest, Some(path), output) == Err::<
            (Seq<char>, Option<Seq<char>>),
            Seq<char>,
        >("error: unexpected argument: "@ + x),
{
    let a = seq![flag, x] + rest;
    assert(a[0] == flag && a[1] == x);
    assert(a.skip(2) =~= rest);
    let b = seq![x] + rest;
    assert(b[0] == x);
    assert(b.skip(1) =~= rest);
}

/// The book of a file is called after the file, without its extension, and the book of a directory
/// after the directory.
pub proof fn lemma_titles_of_books(name: Seq<char>)
    ensures
        file_title(Some(name)) == stem(name),
        dir_book_title(Some(name)) == name,
        file_title(None) == "document"@,
        dir_book_title(None) == "export"@,
{
}

/// The browser is asked to print without a window, to the path of the PDF, the page at its path.
pub proof fn lemma_how_books_are_printed(pdf_path: Seq<char>, html_path: Seq<char>, k: int)
    requires
        0 <= k < html_path.len(),
    ensures
        ({
            let args = print_arguments(pdf_path, html_path);
            let url = args.last();
            &&& args.contains("--headless=new"@)
            &&& args.contains("--disable-gpu"@)
            &&& args.contains("--no-sandbox"@)
            &&& args.contains("--disable-software-rasterizer"@)
            &&& args.contains("--print-to-pdf="@ + pdf_path)
            &&& args.len() == 6
            &&& url.len() == 8 + html_path.len()
            &&& url.take(8) == seq!['f', 'i', 'l', 'e', ':', '/', '/', '/']
            &&& html_path[k] == '\\' ==> url[8 + k] == '/'
            &&& html_path[k] != '\\' ==> url[8 + k] == html_path[k]
        }),
{
    reveal_strlit("file:///");
    let args = print_arguments(pdf_path, html_path);
    assert(args[0] == "--headless=new"@ && args[1] == "--disable-gpu"@ && args[2] == "--no-sandbox"@
        && args[3] == "--disable-software-rasterizer"@ && args[4] == "--print-to-pdf="@ + pdf_path);
    let url = args[5];
    assert(url.take(8) =~= seq!['f', 'i', 'l', 'e', ':', '/', '/', '/']);
}

/// The first browser that is there is taken.
pub proof fn lemma_first_browser(
    a: Seq<Seq<char>>,
    path: Seq<char>,
    b: Seq<Seq<char>>,
    x: Seq<bool>,
    y: Seq<bool>,
)
    requires
        a.len() == x.len(),
        b.len() == y.len(),
        forall|i: int| 0 <= i < x.len() ==> !(#[trigger] x[i]),
    ensures
        first_there(a, x) is None,
        first_there(a + (seq![path] + b), x + (seq![true] + y)) == Some(path),
    decreases a.len(),
{
    let paths = a + (seq![path] + b);
    let there = x + (seq![true] + y);
    if a.len() == 0 {
        assert(paths[0] == path && there[0]);
    } else {
        let p = a.skip(1);
        let q = x.skip(1);
        assert(!x[0]);
        assert(there[0] == x[0]);
        assert forall|i: int| 0 <= i < q.len() implies !(#[trigger] q[i]) by {
            assert(q[i] == x[i + 1]);
        }
        lemma_first_browser(p, path, b, q, y);
        assert(paths.skip(1) =~= p + (seq![path] + b));
        assert(there.skip(1) =~= q + (seq![true] + y));
    }
}

/// The browser that was installed with the program is looked for first, then the one beside it, and
/// then those of the system, Chrome before Edge.
pub proof fn lemma_order_of_browsers(a: Seq<char>, b: Seq<char>)
    ensures
        ({
            let none = browser_order(None, None);
            &&& none.len() == 4
            &&& none[0] == "C:\\Program Files\\Google\\Chrome\\Application\\chrome.exe"@
            &&& none[1] == "C:\\Program Files (x86)\\Google\\Chrome\\Application\\chrome.exe"@
            &&& none[2] == "C:\\Program Files (x86)\\Microsoft\\Edge\\Application\\msedge.exe"@
            &&& none[3] == "C:\\Program Files\\Microsoft\\Edge\\Application\\msedge.exe"@
            &&& browser_order(Some(a), Some(b)) == seq![a, b] + none
            &&& browser_order(Some(a), None) == seq![a] + none
            &&& browser_order(None, Some(b)) == seq![b] + none
        }),
{
    let none = browser_order(None, None);
    assert(browser_order(Some(a), Some(b)) =~= seq![a, b] + none);
    assert(browser_order(Some(a), None) =~= seq![a] + none);
    assert(browser_order(None, Some(b)) =~= seq![b] + none);
}

} // verus!
