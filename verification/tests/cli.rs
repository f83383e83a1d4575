use mdreader::cli::{collect_cli_entries, mode_of, parse_pdf_args, usage_report, Input, Mode};
use mdreader::entries::DocEntry;
use mdreader::tree::{FileNode, NodeKind, OrderConfig};

fn args(list: &[&str]) -> Vec<String> {
    list.iter().map(|a| a.to_string()).collect()
}

fn mode(list: &[&str]) -> String {
    match mode_of(&args(list)) {
        Mode::Help => "help".to_string(),
        Mode::Version => "version".to_string(),
        Mode::ToPdf(rest) => format!("pdf {}", rest.join(" ")),
        Mode::Gui(Some(root)) => format!("gui {root}"),
        Mode::Gui(None) => "gui".to_string(),
    }
}

fn request(list: &[&str]) -> Result<(String, Option<String>), String> {
    parse_pdf_args(&args(list)).map(|r| (r.input, r.output))
}

fn file(name: &str) -> FileNode {
    FileNode { name: name.to_string(), path: format!("/docs/{name}"), kind: NodeKind::File }
}

#[test]
fn arguments_choose_the_mode() {
    assert_eq!(mode(&["--to-pdf", "a.md", "-h"]), "help");
    assert_eq!(mode(&["-V", "--help"]), "help");
    assert_eq!(mode(&["x", "--version"]), "version");
    assert_eq!(mode(&["-V"]), "version");
    assert_eq!(mode(&["x", "--to-pdf", "a.md", "--to-pdf", "-o", "b"]), "pdf a.md --to-pdf -o b");
    assert_eq!(mode(&["--to-pdf"]), "pdf ");
    assert_eq!(mode(&["/docs", "more"]), "gui /docs");
    assert_eq!(mode(&[]), "gui");
}

#[test]
fn conversions_have_an_input_and_an_output() {
    assert_eq!(request(&["a.md"]), Ok(("a.md".to_string(), None)));
    let both = Ok(("a.md".to_string(), Some("b.pdf".to_string())));
    assert_eq!(request(&["a.md", "-o", "b.pdf"]), both);
    assert_eq!(request(&["--output", "b.pdf", "a.md"]), both);
    assert_eq!(request(&["-o", "c.pdf", "a.md", "--output", "b.pdf"]), both);
    assert_eq!(
        request(&["a.md", "-o", "--output"]),
        Ok(("a.md".to_string(), Some("--output".to_string())))
    );
}

#[test]
fn wrong_arguments_are_told() {
    assert_eq!(request(&["a.md", "-o"]), Err("error: -o requires a value".to_string()));
    assert_eq!(request(&["--output"]), Err("error: --output requires a value".to_string()));
    assert_eq!(request(&["a.md", "b.md"]), Err("error: unexpected argument: b.md".to_string()));
    assert_eq!(request(&[]), Err("error: --to-pdf requires an input path".to_string()));
    assert_eq!(usage_report("error: no".to_string()), ("error: no".to_string(), 2));
    assert_eq!(request(&["-o", "b"]), Err("error: --to-pdf requires an input path".to_string()));
}

#[test]
fn a_file_is_converted_alone() {
    let (entries, title) =
        collect_cli_entries("notes/my.notes.md", &Input::File, &OrderConfig::new()).unwrap();
    assert_eq!(title, "my.notes");
    assert_eq!(entries.len(), 1);
    assert!(
        matches!(&entries[0], DocEntry::Document { path, depth: 0 } if path == "notes/my.notes.md")
    );
    let (_, title) = collect_cli_entries("..", &Input::File, &OrderConfig::new()).unwrap();
    assert_eq!(title, "document");
}

#[test]
fn a_directory_is_converted_in_order() {
    let found = Input::Directory(vec![file("b.md"), file("x.txt"), file("a.md")]);
    let mut order = OrderConfig::new();
    let paths = |order: &OrderConfig| -> Vec<String> {
        let (entries, title) = collect_cli_entries("/docs", &found, order).unwrap();
        assert_eq!(title, "docs");
        entries
            .iter()
            .map(|e| match e {
                DocEntry::Document { path, .. } => path.clone(),
                DocEntry::Section { name, .. } => name.clone(),
            })
            .collect()
    };
    assert_eq!(paths(&order), vec!["/docs/a.md", "/docs/b.md"]);
    order.insert("/docs".to_string(), vec!["b.md".to_string()]);
    assert_eq!(paths(&order), vec!["/docs/b.md", "/docs/a.md"]);
    let (_, title) =
        collect_cli_entries(".", &Input::Directory(vec![file("a.md")]), &OrderConfig::new())
            .unwrap();
    assert_eq!(title, "export");
}

#[test]
fn nothing_to_convert_is_an_error() {
    let none = OrderConfig::new();
    let found = Input::Directory(vec![file("x.txt")]);
    assert_eq!(
        collect_cli_entries("/docs", &found, &none).err(),
        Some("No markdown files found in /docs".to_string())
    );
    assert_eq!(
        collect_cli_entries("/gone", &Input::Missing, &none).err(),
        Some("Input not found: /gone".to_string())
    );
}
