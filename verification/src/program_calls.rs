//! What calls return of the command line, of printing and of the window, stated of their arguments
//! and results.
use crate::cli::{
    collect_cli_entries, dir_book_title, file_title, mode_of, parse_pdf_args, usage_report, Input,
    Mode, ModeView, PdfRequest,
};
use crate::entries::{collect_doc_entries, doc_views, max_nesting, DocEntry, Entry};
use crate::heading_laws::lemma_extensions;
use crate::listing_laws::lemma_markdown_names;
use crate::move_laws::lemma_what_is_moved;
use crate::path_laws::{is_name, lemma_directories, lemma_file_names};
use crate::paths::{
    dir_or, file_name, is_file_name_of, is_joined, is_parent_of, is_plain_dir, is_plain_relative,
    lemma_plain_join, link_path, or_empty, parent_dir, plain_join, slashed, stem_of, text_of,
};
use crate::printing::{
    browser_candidates, cli_report, default_output, find_browser, pdf_name, print_args,
    print_result,
};
use crate::reader::{Reader, ReaderView};
use crate::reorder::{moved, reorder, siblings};
use crate::request_laws::{
    asks_for_information, lemma_arguments, lemma_conversions_and_windows, lemma_first_browser,
    lemma_how_books_are_printed, lemma_order_of_browsers,
};
use crate::sidebar::{choose_action, sidebar_row, ActionView, SidebarAction, SidebarRow};
use crate::text::text_views;
use crate::tree::{
    all_arranged, arranged, build_tree, names, trees, FileNode, OrderConfig, Tree,
};
use crate::tree_laws::{lemma_kept_order_comes_back, lemma_order_permutes};
use crate::updates::UpdateState;
use vstd::prelude::*;

verus! {

/// `mode_of` returns help and the version where they are asked for, else what stands behind
/// `--to-pdf`, else the first argument.
pub proof fn lemma_call_tells_modes(
    args: &Vec<String>,
    out: Mode,
    a: Seq<Seq<char>>,
    b: Seq<Seq<char>>,
)
    requires
        call_ensures(mode_of, (args,), out),
        !a.contains("--to-pdf"@),
    ensures
        out@ is Help <==> text_views(args@).contains("--help"@) || text_views(args@).contains(
            "-h"@,
        ),
        out@ is Version <==> !(out@ is Help) && (text_views(args@).contains("--version"@)
            || text_views(args@).contains("-V"@)),
        !asks_for_information(text_views(args@)) && text_views(args@) == a + (seq!["--to-pdf"@] + b)
            ==> out@ == ModeView::ToPdf(b),
        !asks_for_information(text_views(args@)) && text_views(args@) == a ==> out@
            == ModeView::Gui(
            if a.len() == 0 {
                None
            } else {
                Some(a[0])
            },
        ),
{
    lemma_conversions_and_windows(a, b);
}

/// `parse_pdf_args` returns the one input and the path that `-o` or `--output` names, wherever it
/// stands, and says what is wrong with any other arguments.
#[verifier::rlimit(40)]
pub proof fn lemma_call_parses_arguments(
    args: &Vec<String>,
    out: Result<PdfRequest, String>,
    flag: Seq<char>,
    input: Seq<char>,
    path: Seq<char>,
)
    requires
        call_ensures(parse_pdf_args, (args,), out),
        flag == "-o"@ || flag == "--output"@,
        input != "-o"@,
        input != "--output"@,
    ensures
        text_views(args@) == seq![input] ==> (out matches Ok(r) && r.input@ == input && r.output
            is None),
        text_views(args@) == seq![input, flag, path] || text_views(args@) == seq![flag, path, input]
            ==> (out matches Ok(r) && r.input@ == input && text_of(r.output) == Some(path)),
        text_views(args@).len() == 0 || text_views(args@) == seq![flag, path] ==> (out matches Err(m)
            && m@ == "error: --to-pdf requires an input path"@),
        text_views(args@) == seq![flag] || text_views(args@) == seq![input, flag] ==> (
        out matches Err(m) && m@ == "error: "@ + flag + " requires a value"@),
        text_views(args@) == seq![path, input] && path != "-o"@ && path != "--output"@ ==> (
        out matches Err(m) && m@ == "error: unexpected argument: "@ + input),
{
    let all = text_views(args@);
    let none = Seq::<Seq<char>>::empty();
    let no: Option<Seq<char>> = None;
    assert(seq![input] + none =~= seq![input]);
    assert(seq![flag, path] + none =~= seq![flag, path]);
    assert(seq![input] + seq![flag, path] =~= seq![input, flag, path]);
    assert(seq![flag, path] + seq![input] =~= seq![flag, path, input]);
    assert(seq![input] + seq![flag] =~= seq![input, flag]);
    assert(seq![path] + seq![input] =~= seq![path, input]);
    if all.len() == 0 {
        assert(all =~= none);
    }
    lemma_arguments(flag, input, none, input, no, no);
    lemma_arguments(flag, input, none, input, no, Some(path));
    lemma_arguments(flag, path, none, input, no, no);
    lemma_arguments(flag, path, none, input, Some(input), no);
    lemma_arguments(flag, path, seq![input], input, no, no);
    lemma_arguments(flag, input, seq![flag, path], input, no, no);
    lemma_arguments(flag, input, seq![flag], input, no, no);
    lemma_arguments(flag, input, seq![flag], input, Some(input), no);
    lemma_arguments(flag, path, none, input, no, Some(path));
    lemma_arguments(flag, path, seq![input], path, no, no);
    lemma_arguments(flag, input, none, path, Some(path), no);
}

/// Wrong arguments end the program with the code two, and a conversion with zero or one; what is
/// told holds the message or the path.
pub proof fn lemma_calls_report(
    message: String,
    a: (String, i32),
    result: &Result<String, String>,
    b: (String, i32),
)
    requires
        call_ensures(usage_report, (message,), a),
        call_ensures(cli_report, (result,), b),
    ensures
        a.0@ == message@,
        a.1 == 2,
        *result matches Ok(path) ==> b.1 == 0 && b.0@ == "PDF written: "@ + path@,
        *result matches Err(error) ==> b.1 == 1 && b.0@ == "error: "@ + error@,
{
}

/// A file is converted alone and has its name without the extension as the title of its book. Where
/// nothing is found, the path is told.
pub proof fn lemma_call_collects_input(
    input: &str,
    found: &Input,
    order: &OrderConfig,
    out: Result<(Vec<DocEntry>, String), String>,
    dir: Seq<char>,
    name: Seq<char>,
    extension: Seq<char>,
)
    requires
        call_ensures(collect_cli_entries, (input, found, order), out),
        found matches Input::Directory(listing) ==> max_nesting(trees(listing@)) <= usize::MAX,
        name.len() > 0,
        !extension.contains('.'),
        is_name(name + seq!['.'] + extension),
        !dir.contains('\\'),
        dir.len() > 0 ==> dir.len() == 1 || !(dir[0] == '/' && dir[1] == '/'),
        dir.len() == 1 ==> dir[0] != '/',
    ensures
        *found is File && input@ == dir + seq!['/'] + (name + seq!['.'] + extension) ==> (
        out matches Ok((entries, title)) && doc_views(entries@) == seq![
            Entry::Document { path: input@, depth: 0 },
        ] && title@ == name),
        *found is Missing ==> (out matches Err(message) && message@ == "Input not found: "@
            + input@),
        *found is Directory && input@ == dir + seq!['/'] + (name + seq!['.'] + extension) && out
            is Ok ==> out->Ok_0.1@ == name + seq!['.'] + extension && out->Ok_0.0@.len() > 0,
        *found is Directory && out is Err ==> out->Err_0@ == "No markdown files found in "@ + input@,
{
    let full = name + seq!['.'] + extension;
    lemma_extensions(name, extension);
    if input@ == dir + seq!['/'] + full {
        if *found is File {
            let n = choose|n: Option<Seq<char>>|
                is_file_name_of(input@, n) && out->Ok_0.1@ == #[trigger] file_title(n);
            lemma_file_names(dir, full, n);
        }
        if *found is Directory && out is Ok {
            let n = choose|n: Option<Seq<char>>|
                is_file_name_of(input@, n) && out->Ok_0.1@ == #[trigger] dir_book_title(n);
            lemma_file_names(dir, full, n);
            assert(doc_views(out->Ok_0.0@).len() == out->Ok_0.0@.len());
        }
    }
}

/// A directory is converted as `build_tree` and `collect_doc_entries` return it.
pub proof fn lemma_calls_agree_on_directories(
    input: &str,
    found: &Input,
    listing: &Vec<FileNode>,
    order: &OrderConfig,
    out: Result<(Vec<DocEntry>, String), String>,
    tree: Vec<FileNode>,
    list: Vec<DocEntry>,
)
    requires
        *found == Input::Directory(*listing),
        max_nesting(trees(listing@)) <= usize::MAX,
        max_nesting(trees(tree@)) <= usize::MAX,
        call_ensures(collect_cli_entries, (input, found, order), out),
        call_ensures(build_tree, (input, listing, order), tree),
        call_ensures(collect_doc_entries, (&tree, 0), list),
    ensures
        out is Ok <==> list@.len() > 0,
        out matches Ok((entries, title)) ==> doc_views(entries@) == doc_views(list@),
{
    assert(doc_views(list@).len() == list@.len());
}

/// The PDF of a book is called after its title, and lies in the directory where none is named.
pub proof fn lemma_calls_name_pdfs(dir: &str, title: &str, a: String, b: String)
    requires
        call_ensures(pdf_name, (title,), a),
        call_ensures(default_output, (dir, title), b),
    ensures
        a@ == title@ + seq!['.', 'p', 'd', 'f'],
        is_plain_dir(dir@) && is_plain_relative(a@) ==> slashed(b@) == slashed(
            plain_join(dir@, a@),
        ),
{
    reveal_strlit(".pdf");
    assert(".pdf"@ =~= seq!['.', 'p', 'd', 'f']);
    if is_plain_dir(dir@) && is_plain_relative(a@) {
        lemma_plain_join(dir@, a@, b@);
    }
}

/// The browser is asked to print without a window the page at its path to the path of the PDF.
pub proof fn lemma_call_returns_print_arguments(
    pdf_path: &str,
    html_path: &str,
    out: Vec<String>,
    k: int,
)
    requires
        call_ensures(print_args, (pdf_path, html_path), out),
        0 <= k < html_path@.len(),
    ensures
        text_views(out@).contains("--headless=new"@),
        text_views(out@).contains("--disable-gpu"@),
        text_views(out@).contains("--no-sandbox"@),
        text_views(out@).contains("--disable-software-rasterizer"@),
        text_views(out@).contains("--print-to-pdf="@ + pdf_path@),
        out@.len() == 6,
        out@[5]@.len() == 8 + html_path@.len(),
        out@[5]@.take(8) == seq!['f', 'i', 'l', 'e', ':', '/', '/', '/'],
        html_path@[k] == '\\' ==> out@[5]@[8 + k] == '/',
        html_path@[k] != '\\' ==> out@[5]@[8 + k] == html_path@[k],
{
    lemma_how_books_are_printed(pdf_path@, html_path@, k);
    assert(text_views(out@).len() == out@.len());
    assert(text_views(out@)[5] == out@[5]@);
}

/// Printing succeeded where the browser says so or the PDF is there.
pub proof fn lemma_call_returns_print_result(
    success: bool,
    written: bool,
    pdf_path: &str,
    stderr: &str,
    out: Result<String, String>,
)
    requires
        call_ensures(print_result, (success, written, pdf_path, stderr), out),
    ensures
        success || written ==> (out matches Ok(path) && path@ == pdf_path@),
        !success && !written ==> (out matches Err(message) && message@ == "Browser error: "@
            + stderr@),
{
}

/// `find_browser` returns the first browser that is there.
pub proof fn lemma_call_finds_browser(
    paths: &Vec<String>,
    there: &Vec<bool>,
    out: Result<String, String>,
    i: int,
)
    requires
        paths@.len() == there@.len(),
        call_ensures(find_browser, (paths, there), out),
        0 <= i <= paths@.len(),
        forall|j: int| 0 <= j < i ==> !(#[trigger] there@[j]),
    ensures
        i < paths@.len() && there@[i] ==> (out matches Ok(path) && path@ == paths@[i]@),
        i == paths@.len() ==> (out matches Err(message) && message@
            == "Chrome/Edge not found — cannot generate PDF."@),
{
    let all = text_views(paths@);
    let a = all.take(i);
    let x = there@.take(i);
    assert forall|j: int| 0 <= j < x.len() implies !(#[trigger] x[j]) by {
        assert(x[j] == there@[j]);
    }
    if i < paths@.len() && there@[i] {
        let b = all.skip(i + 1);
        let y = there@.skip(i + 1);
        lemma_first_browser(a, all[i], b, x, y);
        assert(a + (seq![all[i]] + b) =~= all);
        assert(x + (seq![true] + y) =~= there@);
    }
    if i == paths@.len() {
        lemma_first_browser(a, seq![], seq![], x, seq![]);
        assert(a =~= all);
        assert(x =~= there@);
    }
}

/// The browsers that come with the program stand before those of the system.
pub proof fn lemma_call_orders_browsers(
    installed: Option<String>,
    beside: Option<String>,
    out: Vec<String>,
)
    requires
        call_ensures(browser_candidates, (installed, beside), out),
    ensures
        installed matches Some(path) ==> out@.len() > 0 && out@[0]@ == path@,
        installed is None ==> (beside matches Some(path) ==> out@.len() > 0 && out@[0]@ == path@),
        installed is Some ==> (beside matches Some(path) ==> out@.len() > 1 && out@[1]@ == path@),
        out@.len() >= 4,
        out@[out@.len() - 4]@ == "C:\\Program Files\\Google\\Chrome\\Application\\chrome.exe"@,
        out@[out@.len() - 1]@ == "C:\\Program Files\\Microsoft\\Edge\\Application\\msedge.exe"@,
{
    let a = or_empty(text_of(installed));
    let b = or_empty(text_of(beside));
    lemma_order_of_browsers(a, b);
    let all = text_views(out@);
    assert(all.len() == out@.len());
    assert(all[0] == out@[0]@);
    assert(out@.len() > 1 ==> all[1] == out@[1]@);
    assert(all[all.len() - 1] == out@[out@.len() - 1]@);
    assert(all[all.len() - 4] == out@[out@.len() - 4]@);
}

/// The name and the directory of a path are what stands behind and before its last slash, and a
/// link leads from that directory.
pub proof fn lemma_calls_take_paths_apart(
    path: &str,
    target: &str,
    found: Option<String>,
    parent: String,
    link: String,
    dir: Seq<char>,
    name: Seq<char>,
)
    requires
        call_ensures(file_name, (path,), found),
        call_ensures(parent_dir, (path,), parent),
        call_ensures(link_path, (path, target), link),
        path@ == dir + seq!['/'] + name,
        is_name(dir),
        is_name(name),
    ensures
        text_of(found) == Some(name),
        parent@ == dir,
        is_joined(dir, target@, link@),
{
    assert(dir.contains(dir[0]));
    lemma_file_names(dir, name, text_of(found));
    let a = choose|p: Option<Seq<char>>|
        is_parent_of(path@, p) && parent@ == #[trigger] or_empty(p);
    lemma_directories(seq![], dir, name, a);
    let b = choose|p: Option<Seq<char>>|
        is_parent_of(path@, p) && #[trigger] is_joined(dir_or(p, path@), target@, link@);
    lemma_directories(seq![], dir, name, b);
}

/// `stem_of` returns a file name without its extension.
pub proof fn lemma_call_takes_extensions_off(
    name: &str,
    out: String,
    a: Seq<char>,
    b: Seq<char>,
)
    requires
        call_ensures(stem_of, (name,), out),
        !b.contains('.'),
    ensures
        a.len() > 0 && name@ == a + seq!['.'] + b ==> out@ == a,
        name@ == b || name@ == seq!['.'] + b ==> out@ == name@,
{
    lemma_extensions(a, b);
}

/// A row of the sidebar shows its file when it is clicked, and goes up and down by one place.
pub proof fn lemma_call_returns_rows(
    nodes: &Vec<FileNode>,
    i: usize,
    parent: &str,
    selected: &Option<String>,
    out: SidebarRow,
)
    requires
        i < nodes@.len(),
        call_ensures(sidebar_row, (nodes, i, parent, selected), out),
    ensures
        nodes@[i as int].tree() matches Tree::File { name, path } ==> out.label@ == name
            && out@.click == Some(ActionView::LoadFile(path)) && out.selected == (text_of(*selected)
            == Some(path)),
        nodes@[i as int].tree() is Dir ==> out@.click is None && !out.selected,
        out@.up == if i > 0 {
            Some(ActionView::Reorder { parent: parent@, from: i as int, to: i - 1 })
        } else {
            None
        },
        out@.down == if i + 1 < nodes@.len() {
            Some(ActionView::Reorder { parent: parent@, from: i as int, to: i + 1 })
        } else {
            None
        },
{
    assert(trees(nodes@)[i as int] == nodes@[i as int].tree());
    assert(trees(nodes@).len() == nodes@.len());
}

/// A row comes before the rows above it, and the rows inside it come last.
pub proof fn lemma_call_chooses(
    before: Option<SidebarAction>,
    own: Option<SidebarAction>,
    inner: Option<SidebarAction>,
    out: Option<SidebarAction>,
)
    requires
        call_ensures(choose_action, (before, own, inner), out),
    ensures
        own is Some ==> out == own,
        own is None && before is Some ==> out == before,
        own is None && before is None ==> out == inner,
{
}

/// The search goes on until it has an answer, and the window is drawn again while something goes
/// on.
pub proof fn lemma_calls_search<A, D>(
    state: UpdateState<A, D>,
    answer: Option<Option<A>>,
    next: UpdateState<A, D>,
    seconds: Option<u64>,
)
    requires
        call_ensures(UpdateState::<A, D>::poll, (state, answer), next),
        call_ensures(UpdateState::<A, D>::repaint_after, (&state,), seconds),
    ensures
        answer is None ==> next == state,
        answer == Some(None::<A>) ==> next is Idle,
        answer matches Some(Some(version)) ==> next == UpdateState::<A, D>::Available(version),
        state is Checking || state is Downloading ==> seconds == Some(1u64),
        state is Idle || state is Available ==> seconds is None,
{
}

/// Changing the theme, the settings or the message of a reader changes nothing else of it.
pub proof fn lemma_calls_change_settings(
    a: &mut Reader,
    b: &mut Reader,
    c: &mut Reader,
    d: &mut Reader,
)
    requires
        call_ensures(Reader::toggle_theme, (a,), ()),
        call_ensures(Reader::toggle_settings, (b,), ()),
        call_ensures(Reader::cancel_settings, (c,), ()),
        call_ensures(Reader::dismiss_status, (d,), ()),
    ensures
        final(a)@ == (ReaderView { dark: !old(a)@.dark, ..old(a)@ }),
        final(b)@ == (ReaderView {
            settings_open: !old(b)@.settings_open,
            root_input: old(b)@.root,
            ..old(b)@
        }),
        final(c)@ == (ReaderView { settings_open: false, root_input: old(c)@.root, ..old(c)@ }),
        final(d)@ == (ReaderView { status: None, ..old(d)@ }),
{
}

/// A file that is loaded is selected, and an error in reading it is shown in its place.
pub proof fn lemma_call_loads_files(r: &mut Reader, path: String, read: &Result<String, String>)
    requires
        call_ensures(Reader::load_file, (r, path, read), ()),
    ensures
        final(r)@.selected == Some(path@),
        *read matches Err(error) ==> final(r)@.content == "> **Error reading file:** "@ + error@,
        final(r)@.tree == old(r)@.tree,
        final(r)@.orders == old(r)@.orders,
        final(r)@.root == old(r)@.root,
        final(r)@.dark == old(r)@.dark,
        final(r)@.status == old(r)@.status,
{
}

/// The title of the window is told where it is a new one.
pub proof fn lemma_call_retitles(r: &mut Reader, name: &str, changed: Option<String>)
    requires
        call_ensures(Reader::retitle, (r, name), changed),
    ensures
        final(r)@.title == "MD Reader — "@ + name@,
        changed is None <==> old(r)@.title == final(r)@.title,
        changed matches Some(title) ==> title@ == final(r)@.title,
        final(r)@.tree == old(r)@.tree,
        final(r)@.selected == old(r)@.selected,
{
}

/// What came of an export is told until it is dismissed.
pub proof fn lemma_calls_tell_of_exports(
    r: &mut Reader,
    result: &Result<String, String>,
    s: &Reader,
    line: Option<String>,
    can: bool,
)
    requires
        call_ensures(Reader::export_done, (r, result), ()),
        call_ensures(Reader::status_line, (s,), line),
        call_ensures(Reader::can_export, (s,), can),
    ensures
        *result matches Ok(path) ==> final(r)@.status == Some("✔ PDF saved → "@ + path@),
        *result matches Err(message) ==> final(r)@.status == Some("✘ "@ + message@),
        s@.status is Some ==> text_of(line) == s@.status,
        s@.status is None ==> text_of(line) == s@.selected,
        can <==> s@.tree.len() > 0,
{
}

/// What is moved stands at its new place among its siblings, the others keep their order, and that
/// order is kept for the directory. Nothing is changed where there is nothing to move.
pub proof fn lemma_call_moves(
    nodes: &mut Vec<FileNode>,
    order: &mut OrderConfig,
    root: &str,
    from: usize,
    to: usize,
    changed: bool,
)
    requires
        call_ensures(reorder, (nodes, order, root, root, from, to), changed),
    ensures
        changed <==> from < old(nodes)@.len() && to < old(nodes)@.len() && from != to,
        !changed ==> trees(final(nodes)@) == trees(old(nodes)@) && final(order)@ == old(order)@,
        changed ==> trees(final(nodes)@)[to as int] == trees(old(nodes)@)[from as int] && trees(
            final(nodes)@,
        ).remove(to as int) == trees(old(nodes)@).remove(from as int) && final(order)@ == old(
            order,
        )@.insert(root@, names(trees(final(nodes)@))),
{
    let all = trees(old(nodes)@);
    assert(all.len() == old(nodes)@.len());
    assert(siblings(all, root@, root@) == Some(all));
    if changed {
        lemma_what_is_moved(all, from as int, to as int);
        assert(trees(final(nodes)@) == moved(all, from as int, to as int));
    }
}

/// A reader shows the tree that `build_tree` returns, when it opens, when the tree is built anew
/// and when the settings are applied.
pub proof fn lemma_calls_show_trees(
    root: String,
    dark: bool,
    listing: &Vec<FileNode>,
    order: OrderConfig,
    opened: Reader,
    text: &str,
    nodes: Vec<FileNode>,
    a: &mut Reader,
    b: &mut Reader,
)
    requires
        call_ensures(Reader::open, (root, dark, listing, order), opened),
        text@ == root@,
        call_ensures(build_tree, (text, listing, &order), nodes),
        call_ensures(Reader::refresh_tree, (a, order, listing), ()),
        old(a)@.root == root@,
        call_ensures(Reader::apply_settings, (b, order, listing), ()),
        old(b)@.root_input == root@,
    ensures
        opened@.tree == trees(nodes@),
        opened@.root == root@ && opened@.dark == dark && opened@.selected is None
            && opened@.content.len() == 0,
        final(a)@ == (ReaderView { tree: trees(nodes@), orders: order@, ..old(a)@ }),
        final(b)@.tree == trees(nodes@),
        final(b)@.root == root@ && final(b)@.orders == order@ && final(b)@.selected is None
            && final(b)@.content.len() == 0 && !final(b)@.settings_open,
        final(b)@.dark == old(b)@.dark && final(b)@.status == old(b)@.status,
{
}

/// A reader is called after the directory that it is open on.
pub proof fn lemma_call_returns_root_name(
    r: &Reader,
    out: String,
    dir: Seq<char>,
    name: Seq<char>,
)
    requires
        call_ensures(Reader::root_display_name, (r,), out),
        r@.root == dir + seq!['/'] + name,
        is_name(name),
        !dir.contains('\\'),
        dir.len() > 0 ==> dir.len() == 1 || !(dir[0] == '/' && dir[1] == '/'),
        dir.len() == 1 ==> dir[0] != '/',
    ensures
        out@ == name,
{
    let n = choose|n: Option<Seq<char>>|
        is_file_name_of(r@.root, n) && out@ == #[trigger] or_empty(n);
    lemma_file_names(dir, name, n);
}

/// An order that was taken from siblings puts the same siblings in that order again, however they
/// are met.
pub proof fn lemma_calls_keep_order(
    config: &mut OrderConfig,
    parent: &str,
    kept: &Vec<FileNode>,
    later: &OrderConfig,
    met: &mut Vec<FileNode>,
)
    requires
        call_ensures(OrderConfig::set_order, (config, parent, kept), ()),
        later@ == final(config)@,
        call_ensures(OrderConfig::apply, (later, parent, met), ()),
        names(trees(kept@)).no_duplicates(),
        trees(old(met)@).to_multiset() == trees(kept@).to_multiset(),
    ensures
        trees(final(met)@) == trees(kept@),
{
    lemma_kept_order_comes_back(trees(kept@), trees(old(met)@), old(config)@, parent@);
}

/// Without an order put by hand siblings stay as they are.
pub proof fn lemma_call_applies_no_order(
    config: &OrderConfig,
    parent: &str,
    children: &mut Vec<FileNode>,
)
    requires
        call_ensures(OrderConfig::apply, (config, parent, children), ()),
        !config@.contains_key(parent@),
    ensures
        trees(final(children)@) == trees(old(children)@),
{
}

/// A file is kept as it is where it is a markdown file, and a directory with its name and its path
/// where it holds any.
pub proof fn lemma_call_keeps_nodes(
    listing: &FileNode,
    order: &OrderConfig,
    node: Option<FileNode>,
    s: Seq<char>,
)
    requires
        call_ensures(FileNode::from_listing, (listing, order), node),
    ensures
        listing.tree() matches Tree::File { name, path } ==> (name == s + seq!['.', 'm', 'd'] ==> (
        node matches Some(n) && n.tree() == listing.tree())),
        listing.tree() matches Tree::Dir { name, path, children } ==> (node matches Some(n) ==> (
        n.tree() matches Tree::Dir { name: a, path: b, children: c } && a == name && b == path
            && c.len() > 0)),
{
    reveal_with_fuel(arranged, 2);
    match listing.tree() {
        Tree::File { name, .. } => {
            lemma_markdown_names(s, 'm', 'd', name);
        },
        Tree::Dir { path, children, .. } => {
            lemma_order_permutes(all_arranged(children, order@), order@, path);
        },
    }
}

} // verus!
