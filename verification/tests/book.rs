use mdreader::book::{
    all_read, bind, book_html, book_of_reads, document_links, document_markdown, strip_title,
    Chapter, Source,
};
use mdreader::documents::{document_text, viewer_text};
use mdreader::entries::DocEntry;
use mdreader::links::TextMap;
use mdreader::markdown::markdown_to_html;
use mdreader::outline::{toc_html, TocItem};
use mdreader::page::{html_page, PAGE_END, PAGE_START, PAGE_STYLE};

fn source(file: &str, name: &str, text: &str, links: &[(&str, &str)]) -> Source {
    let mut map = TextMap::new();
    for (k, v) in links {
        map.insert(k.to_string(), v.to_string());
    }
    Source::new(name, Some(file.to_string()), text.to_string(), map)
}

fn item(depth: usize, display: &str, anchor: Option<&str>) -> TocItem {
    TocItem { depth, display: display.to_string(), anchor: anchor.map(|a| a.to_string()) }
}

#[test]
fn pages_hold_title_and_body() {
    let page = html_page("<p>x</p>", "My Docs");
    assert_eq!(page, format!("{PAGE_START}My Docs{PAGE_STYLE}<p>x</p>{PAGE_END}"));
    assert!(page.starts_with("<!DOCTYPE html>\n<html>\n<head>\n<meta charset=\"utf-8\">\n<title>My Docs</title>\n<style>\n  body { font-family: "));
    assert!(page.ends_with("  .doc-title { page-break-after: avoid; }\n</style>\n</head>\n<body>\n<p>x</p>\n</body>\n</html>"));
}

#[test]
fn contents_are_nested() {
    let items = vec![
        item(0, "One", None),
        item(1, "A", Some("doc-0")),
        item(3, "Deep", Some("doc-1")),
        item(0, "B", Some("doc-2")),
        item(1, "C", Some("doc-3")),
    ];
    assert_eq!(
        toc_html(&items),
        "<nav class=\"toc\">\n<h1>Table of Contents</h1>\n<ul class=\"toc-root\">\n\
         \u{20} <li class=\"toc-section\"><strong>One</strong>\n\
         <ul>\n\
         \u{20} <li><a href=\"#doc-0\">A</a></li>\n\
         <ul>\n<ul>\n\
         \u{20} <li><a href=\"#doc-1\">Deep</a></li>\n\
         </ul></li>\n</ul></li>\n</ul></li>\n\
         \u{20} <li><a href=\"#doc-2\">B</a></li>\n\
         <ul>\n\
         \u{20} <li><a href=\"#doc-3\">C</a></li>\n\
         </ul></li>\n\
         </ul>\n</nav>\n<div style=\"page-break-after:always\"></div>\n"
    );
}

#[test]
fn no_more_lists_are_closed_than_opened() {
    let html = toc_html(&vec![item(5, "A", None), item(6, "B", None), item(0, "C", None)]);
    assert_eq!(html.matches("<ul").count(), html.matches("</ul>").count());
    assert_eq!(html.matches("<ul").count(), 2);
}

#[test]
fn markdown_is_rendered_with_its_extensions() {
    assert_eq!(markdown_to_html("# Hi"), "<h1>Hi</h1>\n");
    assert_eq!(markdown_to_html("~~x~~"), "<p><del>x</del></p>\n");
    assert!(markdown_to_html("|a|\n|-|\n|b|\n").contains("<table>"));
    assert!(markdown_to_html("- [x] done").contains("checkbox"));
    assert!(markdown_to_html("www.example.com").contains("href=\"http://www.example.com\""));
    assert_eq!(
        markdown_to_html("<figure>\n<img src=\"a\">\n</figure>\n"),
        "<figure>\n<img src=\"a\">\n</figure>\n"
    );
}

#[test]
fn the_first_title_is_taken_out() {
    assert_eq!(strip_title("a\n # T \nb\r\n# U"), "a\nb\n# U\n");
    assert_eq!(strip_title("## T\nb"), "## T\nb");
    assert_eq!(strip_title(""), "");
}

#[test]
fn documents_are_prepared() {
    let raw = "![a](x.png \"Cap\")\n[B](b.md) [C](c.md)\n## Table of Contents\n- [D](d.md)\n";
    let text = document_text(raw, "/r");
    assert_eq!(
        text,
        "\n<figure><img src=\"file:///r/x.png\" alt=\"a\"><figcaption>Cap</figcaption></figure>\n\n\
         [B](b.md) [C](c.md)\n## Table of Contents\n- [D](d.md)\n"
    );
    assert_eq!(document_links(&text), vec!["b.md", "c.md"]);
    assert_eq!(
        viewer_text(raw, "/r"),
        "![a](file:///r/x.png)\n\n*Cap*\n[B](b.md) [C](c.md)\n## Table of Contents\n- [D](d.md)\n"
    );
}

#[test]
fn too_much_is_never_lost() {
    // Without its table of contents less than six tenths of this document would be left.
    let contents = "## Table of Contents\n- [Document](document.md)\n- [Other](other.md)\n";
    let text = format!("ab\n{contents}");
    let doc = source("/r/a.md", "a.md", &text, &[]);
    assert_eq!(document_markdown(&doc, &TextMap::new()), Some(text.clone()));
    let prose = "abcdefghij\n".repeat(20);
    let doc = source("/r/a.md", "a.md", &format!("{prose}{contents}"), &[]);
    assert_eq!(document_markdown(&doc, &TextMap::new()), Some(prose.trim_end().to_string()));
}

#[test]
fn lengths_are_counted_in_bytes() {
    // The lines that are stripped hold 33 bytes, those that are kept 49 bytes in 17 characters.
    let kept = "漢字漢字漢字漢字\n漢字漢字漢字漢字";
    let text = format!("{kept}\n# table of contents\n- [a](aa.md)");
    let doc = source("/r/a.md", "a.md", &text, &[]);
    assert_eq!(document_markdown(&doc, &TextMap::new()), Some(kept.to_string()));
}

#[test]
fn blank_documents_are_not_shown() {
    let doc = source("/r/a.md", "a.md", " \n\t\n", &[]);
    assert_eq!(document_markdown(&doc, &TextMap::new()), None);
    let nav = source("/r/README.md", "README.md", "- [a](a.md)\n- [b](b.md)\n- [c](c.md)\n", &[]);
    assert_eq!(document_markdown(&nav, &TextMap::new()), None);
}

#[test]
fn chapters_stand_on_pages_of_their_own() {
    let chapter = |depth: usize, anchor: &str, title: &str, html: &str| Chapter {
        depth,
        anchor: anchor.to_string(),
        title: title.to_string(),
        html: html.to_string(),
    };
    let chapters = vec![
        chapter(1, "doc-0", "A", "<p>a</p>\n"),
        chapter(2, "doc-3", "B", "<p>b</p>\n"),
    ];
    let empty = toc_html(&Vec::new());
    assert_eq!(
        bind(&Vec::new(), &chapters, "T"),
        html_page(
            &format!(
                "{empty}<h1 id=\"doc-0\" class=\"doc-title\">A</h1>\n<p>a</p>\n\
                 <div style=\"page-break-before:always\"></div>\n\
                 <h2 id=\"doc-3\" class=\"doc-title\">B</h2>\n<p>b</p>\n"
            ),
            "T"
        )
    );
}

#[test]
fn a_book_has_contents_and_links() {
    let entries = vec![
        DocEntry::Document { path: "/r/README.md".to_string(), depth: 0 },
        DocEntry::Section {
            name: "part-1-start".to_string(),
            dir_path: "/r/part-1-start".to_string(),
            depth: 0,
        },
        DocEntry::Document { path: "/r/part-1-start/a.md".to_string(), depth: 1 },
        DocEntry::Document { path: "/r/part-1-start/blank.md".to_string(), depth: 1 },
        DocEntry::Document { path: "/r/part-1-start/b.md".to_string(), depth: 1 },
    ];
    let sources = vec![
        source(
            "/r/README.md",
            "README.md",
            "# Home\n\nHello.\n\n- [a](a.md)\n- [b](b.md)\n- [c](c.md)\n- [d](d.md)\n",
            &[],
        ),
        source("/r/part-1-start/a.md", "a.md", "# First\n\nGo to [B](b.md).\n", &[(
            "b.md",
            "/r/part-1-start/b.md",
        )]),
        source("/r/part-1-start/blank.md", "blank.md", "\n", &[]),
        source("/r/part-1-start/b.md", "second-one.md", "Text.\n", &[]),
    ];
    let html = book_html(&entries, &sources, "Docs").unwrap();
    let toc = toc_html(&vec![
        item(0, "Home", None),
        item(0, "Part 1 — Start", None),
        item(1, "First", Some("doc-1")),
        item(1, "Blank", Some("doc-2")),
        item(1, "Second One", Some("doc-3")),
    ]);
    let body = "<h1 id=\"doc-0\" class=\"doc-title\">Home</h1>\n<p>Hello.</p>\n\
                <div style=\"page-break-before:always\"></div>\n\
                <h1 id=\"doc-1\" class=\"doc-title\">First</h1>\n<p>Go to <a href=\"#doc-3\">B</a>.</p>\n\
                <div style=\"page-break-before:always\"></div>\n\
                <h1 id=\"doc-3\" class=\"doc-title\">Second One</h1>\n<p>Text.</p>\n";
    assert_eq!(html, html_page(&format!("{toc}{body}"), "Docs"));
}

#[test]
fn there_is_no_book_without_entries() {
    assert_eq!(
        book_html(&Vec::new(), &Vec::new(), "Docs"),
        Err("No markdown files to export.".to_string())
    );
}

#[test]
fn documents_are_known_by_their_file_names() {
    let doc = Source::new("/r/sub/Some-Name.md", None, "text".to_string(), TextMap::new());
    assert_eq!(doc.name, Some("Some-Name.md".to_string()));
    assert_eq!(doc.text, "text");
    assert_eq!(doc.file, None);
    assert_eq!(Source::new("/", None, String::new(), TextMap::new()).name, None);
}

#[test]
fn plain_documents_are_shown_as_they_are() {
    let text = "Intro\n\n## Part\n[x](x.md) `code`\n\n    [y](y.md)\n";
    let doc = source("/r/a.md", "a.md", text, &[("x.md", "/elsewhere/x.md")]);
    assert_eq!(document_markdown(&doc, &TextMap::new()), Some(text.trim_end().to_string()));
}

#[test]
fn documents_are_made_from_what_was_read() {
    let raw = "![a](x.png \"Cap\")\n";
    let doc = Source::from_text("/r/sub/a.md", None, raw, TextMap::new());
    assert_eq!(doc.text, document_text(raw, "/r/sub"));
    assert!(doc.text.contains("file:///r/sub/x.png"));
    assert_eq!(doc.name, Some("a.md".to_string()));
}

#[test]
fn the_directory_does_not_tell_what_a_figure_is() {
    let raw = "![a](x.png \"c\")\n";
    for dir in ["/a)b", "/my docs", "/a(b", "/r"] {
        assert_eq!(viewer_text(raw, dir), format!("![a](file://{dir}/x.png)\n\n*c*\n"));
        assert_eq!(
            document_text(raw, dir),
            format!(
                "\n<figure><img src=\"file://{dir}/x.png\" alt=\"a\">\
                 <figcaption>c</figcaption></figure>\n\n"
            )
        );
        let inline = "![a](x).png \"c\")\n";
        assert_eq!(viewer_text(inline, dir), format!("![a](file://{dir}/x).png \"c\")\n"));
    }
    assert_eq!(viewer_text("![a](http://h/x.png 'c')", "/r"), "![a](http://h/x.png)\n\n*c*");
    assert_eq!(viewer_text("![a](x(1).png \"c (d )\")", "/r"), "![a](file:///r/x(1).png)\n\n*c (d )*");
    assert_eq!(viewer_text("![a](x.png \"c (d )\")", "/r"), "![a](file:///r/x.png)\n\n*c (d)*");
    assert_eq!(viewer_text("![a](x.png)\r\n", "/r"), "![a](file:///r/x.png)\r\n");
}

#[test]
fn the_first_document_that_cannot_be_read_ends_the_book() {
    let ok = |p: &str| Source::from_read(p, None, &Ok("text\n".to_string()));
    let failed = |p: &str, e: &str| Source::from_read(p, None, &Err(e.to_string()));
    assert_eq!(failed("/r/a.md", "denied").err(), Some("Failed to read /r/a.md: denied".to_string()));
    let doc = ok("/r/a.md").unwrap();
    assert_eq!(doc.text, "text\n");
    assert_eq!(doc.name, Some("a.md".to_string()));

    let entry = |p: &str| DocEntry::Document { path: p.to_string(), depth: 0 };
    let entries = vec![entry("/r/a.md"), entry("/r/b.md"), entry("/r/c.md")];
    let reads = vec![ok("/r/a.md"), failed("/r/b.md", "gone"), failed("/r/c.md", "denied")];
    assert_eq!(
        book_of_reads(&entries, reads, "T"),
        Err("Failed to read /r/b.md: gone".to_string())
    );
    let reads = || vec![ok("/r/a.md"), ok("/r/b.md"), ok("/r/c.md")];
    let sources = all_read(reads()).ok().unwrap();
    assert_eq!(sources.len(), 3);
    assert_eq!(sources[2].name, Some("c.md".to_string()));
    assert_eq!(book_of_reads(&entries, reads(), "T"), book_html(&entries, &sources, "T"));
    assert_eq!(
        book_of_reads(&Vec::new(), Vec::new(), "T"),
        Err("No markdown files to export.".to_string())
    );
}
