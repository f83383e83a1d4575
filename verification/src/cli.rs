//! The command line: what it asks for, and what a conversion without a window works on.
use crate::entries::{
    all_entries, collect_doc_entries, doc_views, lemma_arranging_adds_no_level, max_nesting,
    DocEntry, Entry,
};
use crate::links::same_text;
use crate::paths::{file_name, is_file_name_of, stem, stem_of, text_of};
use crate::text::{appended, text_views};
use crate::tree::{all_arranged, build_tree, in_order, trees, FileNode, OrderConfig};
use vstd::prelude::*;

verus! {

/// What the program is asked to do.
pub enum Mode {
    /// Show how the program is used.
    Help,
    /// Show the version of the program.
    Version,
    /// Convert markdown to PDF, by the arguments that follow.
    ToPdf(Vec<String>),
    /// Open a window, on the directory that is named, if there is one.
    Gui(Option<String>),
}

/// What the program is asked to do, as texts.
pub enum ModeView {
    Help,
    Version,
    ToPdf(Seq<Seq<char>>),
    Gui(Option<Seq<char>>),
}

impl View for Mode {
    type V = ModeView;

    open spec fn view(&self) -> ModeView {
        match self {
            Mode::Help => ModeView::Help,
            Mode::Version => ModeView::Version,
            Mode::ToPdf(args) => ModeView::ToPdf(text_views(args@)),
            Mode::Gui(root) => ModeView::Gui(text_of(*root)),
        }
    }
}

/// The arguments behind the first `flag` among `args`, if it is there.
pub open spec fn behind(args: Seq<Seq<char>>, flag: Seq<char>) -> Option<Seq<Seq<char>>>
    decreases args.len(),
{
    if args.len() == 0 {
        None
    } else if args[0] == flag {
        Some(args.skip(1))
    } else {
        behind(args.skip(1), flag)
    }
}

/// What the arguments `args` ask for. Help is given before all else, then the version, wherever
/// among the arguments they are asked for.
pub open spec fn mode(args: Seq<Seq<char>>) -> ModeView {
    if args.contains("--help"@) || args.contains("-h"@) {
        ModeView::Help
    } else if args.contains("--version"@) || args.contains("-V"@) {
        ModeView::Version
    } else if behind(args, "--to-pdf"@) is Some {
        ModeView::ToPdf(behind(args, "--to-pdf"@)->0)
    } else if args.len() > 0 {
        ModeView::Gui(Some(args[0]))
    } else {
        ModeView::Gui(None)
    }
}

fn has_flag(args: &Vec<String>, flag: &str) -> (b: bool)
    ensures
        b == text_views(args@).contains(flag@),
{
    let ghost all = text_views(args@);
    let mut i: usize = 0;
    while i < args.len()
        invariant
            i <= args.len(),
            all == text_views(args@),
            forall|j: int| 0 <= j < i ==> #[trigger] all[j] != flag@,
        decreases args.len() - i,
    {
        assert(all[i as int] == args@[i as int]@);
        if same_text(args[i].as_str(), flag) {
            return true;
        }
        i += 1;
    }
    false
}

fn args_from(args: &Vec<String>, from: usize) -> (out: Vec<String>)
    requires
        from <= args@.len(),
    ensures
        text_views(out@) == text_views(args@).skip(from as int),
{
    let mut out: Vec<String> = Vec::new();
    let mut i: usize = from;
    while i < args.len()
        invariant
            from <= i <= args.len(),
            out@.len() == i - from,
            forall|j: int| 0 <= j < out@.len() ==> (#[trigger] out@[j])@ == args@[from + j]@,
        decreases args.len() - i,
    {
        out.push(args[i].clone());
        i += 1;
    }
    assert(text_views(out@) =~= text_views(args@).skip(from as int));
    out
}

fn args_behind(args: &Vec<String>, flag: &str) -> (out: Option<Vec<String>>)
    ensures
        match out {
            Some(v) => behind(text_views(args@), flag@) == Some(text_views(v@)),
            None => behind(text_views(args@), flag@) is None,
        },
{
    let ghost all = text_views(args@);
    let mut i: usize = 0;
    assert(all.skip(0) =~= all);
    while i < args.len()
        invariant
            i <= args.len(),
            all == text_views(args@),
            behind(all, flag@) == behind(all.skip(i as int), flag@),
        decreases args.len() - i,
    {
        assert(all.skip(i as int)[0] == args@[i as int]@);
        assert(all.skip(i as int).skip(1) =~= all.skip(i + 1));
        if same_text(args[i].as_str(), flag) {
            return Some(args_from(args, i + 1));
        }
        i += 1;
    }
    None
}

/// What the arguments `args` of the program ask for.
pub fn mode_of(args: &Vec<String>) -> (out: Mode)
    ensures
        out@ == mode(text_views(args@)),
{
    if has_flag(args, "--help") || has_flag(args, "-h") {
        return Mode::Help;
    }
    if has_flag(args, "--version") || has_flag(args, "-V") {
        return Mode::Version;
    }
    if let Some(rest) = args_behind(args, "--to-pdf") {
        return Mode::ToPdf(rest);
    }
    if args.len() > 0 {
        assert(text_views(args@)[0] == args@[0]@);
        Mode::Gui(Some(args[0].clone()))
    } else {
        Mode::Gui(None)
    }
}

/// What is to be converted to PDF, and where the PDF is to be written, if that is said.
pub struct PdfRequest {
    pub input: String,
    pub output: Option<String>,
}

/// The argument before the path of the PDF.
pub open spec fn is_output_flag(arg: Seq<char>) -> bool {
    arg == "-o"@ || arg == "--output"@
}

/// What the arguments `args` ask to convert, where `input` and `output` were read before them:
/// the input and the output path, or a message that says what is wrong. Of several output paths
/// the last one counts.
pub open spec fn request(
    args: Seq<Seq<char>>,
    input: Option<Seq<char>>,
    output: Option<Seq<char>>,
) -> Result<(Seq<char>, Option<Seq<char>>), Seq<char>>
    decreases args.len(),
{
    if args.len() == 0 {
        match input {
            Some(path) => Ok((path, output)),
            None => Err("error: --to-pdf requires an input path"@),
        }
    } else if is_output_flag(args[0]) {
        if args.len() == 1 {
            Err("error: "@ + args[0] + " requires a value"@)
        } else {
            request(args.skip(2), input, Some(args[1]))
        }
    } else if input is None {
        request(args.skip(1), Some(args[0]), output)
    } else {
        Err("error: unexpected argument: "@ + args[0])
    }
}

/// What the arguments `args` behind `--to-pdf` ask to convert, or a message that says what is
/// wrong with them.
pub fn parse_pdf_args(args: &Vec<String>) -> (out: Result<PdfRequest, String>)
    ensures
        match out {
            Ok(r) => request(text_views(args@), None, None) == Ok::<
                (Seq<char>, Option<Seq<char>>),
                Seq<char>,
            >((r.input@, text_of(r.output))),
            Err(message) => request(text_views(args@), None, None) == Err::<
                (Seq<char>, Option<Seq<char>>),
                Seq<char>,
            >(message@),
        },
{
    let ghost all = text_views(args@);
    let mut input: Option<String> = None;
    let mut output: Option<String> = None;
    let mut i: usize = 0;
    assert(all.skip(0) =~= all);
    while i < args.len()
        invariant
            i <= args.len(),
            all == text_views(args@),
            request(all, None, None) == request(
                all.skip(i as int),
                text_of(input),
                text_of(output),
            ),
        decreases args.len() - i,
    {
        let ghost rest = all.skip(i as int);
        proof {
            assert(rest[0] == args@[i as int]@);
            assert(rest.skip(1) =~= all.skip(i + 1));
        }
        let arg = args[i].as_str();
        if same_text(arg, "-o") || same_text(arg, "--output") {
            i += 1;
            if i == args.len() {
                let start = appended("error: ", arg);
                return Err(appended(start.as_str(), " requires a value"));
            }
            assert(rest[1] == args@[i as int]@);
            assert(rest.skip(2) =~= all.skip(i + 1));
            output = Some(args[i].clone());
        } else if input.is_none() {
            input = Some(args[i].clone());
        } else {
            return Err(appended("error: unexpected argument: ", arg));
        }
        i += 1;
    }
    assert(all.skip(all.len() as int) =~= seq![]);
    match input {
        Some(path) => Ok(PdfRequest { input: path, output }),
        None => Err("error: --to-pdf requires an input path".to_string()),
    }
}

/// What the command line tells of arguments that are wrong, as `message` says, and the exit code
/// of the program.
pub fn usage_report(message: String) -> (out: (String, i32))
    ensures
        out.0@ == message@,
        out.1 == 2,
{
    (message, 2)
}

/// What was found at the path that is to be converted.
pub enum Input {
    File,
    /// A directory, with all that it holds.
    Directory(Vec<FileNode>),
    Missing,
}

/// The name of a file without its extension, or `document` where there is none.
pub open spec fn file_title(name: Option<Seq<char>>) -> Seq<char> {
    match name {
        Some(n) => stem(n),
        None => "document"@,
    }
}

/// The name of a directory, or `export` where there is none.
pub open spec fn dir_book_title(name: Option<Seq<char>>) -> Seq<char> {
    match name {
        Some(n) => n,
        None => "export"@,
    }
}

/// What is to be converted, and the title of the book, where `found` was found at the path
/// `input`: a file alone, or the documents of a directory in the order that they are shown in.
/// A directory without documents and a path with nothing at it are errors.
pub fn collect_cli_entries(input: &str, found: &Input, order: &OrderConfig) -> (out: Result<
    (Vec<DocEntry>, String),
    String,
>)
    requires
        found matches Input::Directory(listing) ==> max_nesting(trees(listing@)) <= usize::MAX,
    ensures
        match *found {
            Input::File => out matches Ok((entries, title)) && doc_views(entries@) == seq![
                Entry::Document { path: input@, depth: 0 },
            ] && exists|name: Option<Seq<char>>|
                is_file_name_of(input@, name) && title@ == #[trigger] file_title(name),
            Input::Directory(listing) => {
                let all = all_entries(
                    in_order(all_arranged(trees(listing@), order@), order@, input@),
                    0,
                );
                if all.len() == 0 {
                    out matches Err(message) && message@ == "No markdown files found in "@ + input@
                } else {
                    out matches Ok((entries, title)) && doc_views(entries@) == all
                        && exists|name: Option<Seq<char>>|
                        is_file_name_of(input@, name) && title@ == #[trigger] dir_book_title(name)
                }
            },
            Input::Missing => out matches Err(message) && message@ == "Input not found: "@
                + input@,
        },
{
    match found {
        Input::File => {
            let mut entries: Vec<DocEntry> = Vec::new();
            entries.push(DocEntry::Document { path: input.to_string(), depth: 0 });
            assert(doc_views(entries@) =~= seq![Entry::Document { path: input@, depth: 0 }]);
            let name = file_name(input);
            let ghost view = text_of(name);
            let title = match name {
                Some(n) => stem_of(n.as_str()),
                None => "document".to_string(),
            };
            assert(title@ == file_title(view));
            Ok((entries, title))
        },
        Input::Directory(listing) => {
            proof {
                lemma_arranging_adds_no_level(trees(listing@), order@, input@);
            }
            let tree = build_tree(input, listing, order);
            let entries = collect_doc_entries(&tree, 0);
            assert(doc_views(entries@).len() == entries@.len());
            if entries.len() == 0 {
                return Err(appended("No markdown files found in ", input));
            }
            let name = file_name(input);
            let ghost view = text_of(name);
            let title = match name {
                Some(n) => n,
                None => "export".to_string(),
            };
            assert(title@ == dir_book_title(view));
            Ok((entries, title))
        },
        Input::Missing => Err(appended("Input not found: ", input)),
    }
}

proof fn lemma_output_kept(args: Seq<Seq<char>>, input: Option<Seq<char>>, path: Seq<char>)
    requires
        request(args, input, None) matches Ok((i, o)) && o is None,
    ensures
        request(args, input, Some(path)) == Ok::<(Seq<char>, Option<Seq<char>>), Seq<char>>(
            (request(args, input, None)->Ok_0.0, Some(path)),
        ),
    decreases args.len(),
{
    if args.len() > 0 {
        if is_output_flag(args[0]) {
            lemma_output_stays(args.skip(2), input, args[1]);
        } else {
            lemma_output_kept(args.skip(1), Some(args[0]), path);
        }
    }
}

proof fn lemma_output_stays(args: Seq<Seq<char>>, input: Option<Seq<char>>, path: Seq<char>)
    ensures
        request(args, input, Some(path)) matches Ok((i, o)) ==> o is Some,
    decreases args.len(),
{
    if args.len() > 0 {
        if is_output_flag(args[0]) {
            if args.len() > 1 {
                lemma_output_stays(args.skip(2), input, args[1]);
            }
        } else if input is None {
            lemma_output_stays(args.skip(1), Some(args[0]), path);
        }
    }
}

/// The path of the PDF that is named last is taken, whatever stands before it.
pub proof fn lemma_last_output_counts(
    args: Seq<Seq<char>>,
    input: Option<Seq<char>>,
    output: Option<Seq<char>>,
    flag: Seq<char>,
    path: Seq<char>,
)
    requires
        is_output_flag(flag),
        request(args, input, output) is Ok,
    ensures
        request(args + seq![flag, path], input, output) == Ok::<
            (Seq<char>, Option<Seq<char>>),
            Seq<char>,
        >((request(args, input, output)->Ok_0.0, Some(path))),
    decreases args.len(),
{
    let more = args + seq![flag, path];
    if args.len() == 0 {
        assert(more[0] == flag && more[1] == path);
        assert(more.skip(2) =~= seq![]);
        assert(request(more.skip(2), input, Some(path)) is Ok);
    } else {
        assert(more[0] == args[0]);
        if is_output_flag(args[0]) {
            assert(more[1] == args[1]);
            assert(more.skip(2) =~= args.skip(2) + seq![flag, path]);
            lemma_last_output_counts(args.skip(2), input, Some(args[1]), flag, path);
        } else {
            assert(more.skip(1) =~= args.skip(1) + seq![flag, path]);
            lemma_last_output_counts(args.skip(1), Some(args[0]), output, flag, path);
        }
    }
}

/// The path of the PDF may be named before or behind the input.
pub proof fn lemma_output_anywhere(args: Seq<Seq<char>>, flag: Seq<char>, path: Seq<char>)
    requires
        is_output_flag(flag),
        request(args, None, None) matches Ok((input, output)) && output is None,
    ensures
        request(seq![flag, path] + args, None, None) == request(
            args + seq![flag, path],
            None,
            None,
        ),
        request(seq![flag, path] + args, None, None) == Ok::<
            (Seq<char>, Option<Seq<char>>),
            Seq<char>,
        >((request(args, None, None)->Ok_0.0, Some(path))),
{
    let first = seq![flag, path] + args;
    assert(first[0] == flag && first[1] == path);
    assert(first.skip(2) =~= args);
    lemma_output_kept(args, None, path);
    lemma_last_output_counts(args, None, None, flag, path);
}

} // verus!
