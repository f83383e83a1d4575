use mdreader::figures::{escape_html, expand_figures_html, expand_figures_md, parse_figure_line};

#[test]
fn detects_standalone_figure_with_title() {
    let line = r#"![schematic](foo.png "Figure 1")"#;
    let got = parse_figure_line(line);
    assert_eq!(got, Some(("schematic", "foo.png", "Figure 1".to_string())));
}

#[test]
fn detects_figure_with_surrounding_whitespace() {
    let line = r#"   ![a](x.png "cap")   "#;
    assert_eq!(parse_figure_line(line), Some(("a", "x.png", "cap".to_string())));
}

#[test]
fn rejects_image_without_title() {
    assert_eq!(parse_figure_line("![a](x.png)"), None);
}

#[test]
fn rejects_inline_image_in_paragraph() {
    let line = r#"See ![a](x "c") for details."#;
    assert_eq!(parse_figure_line(line), None);
}

#[test]
fn rejects_non_image_line() {
    assert_eq!(parse_figure_line("# Heading"), None);
    assert_eq!(parse_figure_line("just text"), None);
}

#[test]
fn expand_figures_md_adds_italic_caption() {
    let src = "Intro.\n\n![diag](foo.png \"Figure 1: the flow\")\n\nMore.\n";
    let got = expand_figures_md(src);
    assert!(got.contains("![diag](foo.png)"), "got: {got}");
    assert!(got.contains("*Figure 1: the flow*"), "got: {got}");
}

#[test]
fn expand_figures_md_escapes_asterisks_in_caption() {
    let src = "![a](x.png \"see the * algorithm\")\n";
    let got = expand_figures_md(src);
    assert!(got.contains(r"*see the \* algorithm*"), "got: {got}");
}

#[test]
fn expand_figures_md_leaves_plain_images_alone() {
    let src = "![a](x.png)\n";
    assert_eq!(expand_figures_md(src), src);
}

#[test]
fn expand_figures_html_emits_figure_tag() {
    let src = "![diag](foo.png \"Figure 1\")\n";
    let got = expand_figures_html(src);
    assert!(got.contains("<figure>"), "got: {got}");
    assert!(got.contains(r#"<img src="foo.png" alt="diag">"#), "got: {got}");
    assert!(got.contains("<figcaption>Figure 1</figcaption>"), "got: {got}");
    assert!(got.contains("</figure>"), "got: {got}");
}

#[test]
fn expand_figures_html_escapes_special_chars_in_caption() {
    let src = "![a](x.png \"A & B <c>\")\n";
    let got = expand_figures_html(src);
    assert!(got.contains("A &amp; B &lt;c&gt;"), "got: {got}");
}

#[test]
fn figure_expanders_are_idempotent_on_non_figures() {
    let src = "# Title\n\nParagraph with ![inline](x.png) image.\n";
    assert_eq!(expand_figures_md(src), src);
    assert_eq!(expand_figures_html(src), src);
}

#[test]
fn markup_is_escaped() {
    assert_eq!(escape_html("<a href=\"x\">'&'</a>"), "&lt;a href=&quot;x&quot;&gt;&#39;&amp;&#39;&lt;/a&gt;");
    assert_eq!(escape_html("plain é"), "plain é");
}

#[test]
fn figures_become_captions_and_html() {
    let src = "![d](f.png \"A * B\")\r\nrest";
    assert_eq!(expand_figures_md(src), "![d](f.png)\r\n\r\n*A \\* B*\r\nrest");
    let src = "![d<](f&.png 'say \"x\"')\n";
    assert_eq!(
        parse_figure_line("![d<](f&.png 'say \"x\"')"),
        Some(("d<", "f&.png", "say \"x\"".to_string()))
    );
    assert_eq!(
        expand_figures_html(src),
        "\n<figure><img src=\"f&amp;.png\" alt=\"d&lt;\"><figcaption>say &quot;x&quot;</figcaption></figure>\n\n"
    );
}

#[test]
fn only_images_that_stand_alone_are_figures() {
    assert_eq!(parse_figure_line("![a](x.png \"c\") and ![b](y.png \"d\")"), None);
    assert_eq!(parse_figure_line("![a](x.png) \"see\" (b \"d\")"), None);
    assert_eq!(
        parse_figure_line("![a](x_(1).png \"the \"new\" one\")"),
        Some(("a", "x_(1).png", "the \"new\" one".to_string()))
    );
    assert_eq!(
        parse_figure_line("![a](x.png \"so \\\") it\")"),
        Some(("a", "x.png", "so \\\") it".to_string()))
    );
    assert_eq!(parse_figure_line("![a] b ![c](x \"d\")"), None);
    assert_eq!(parse_figure_line("![a]: ![c](x \"d\")"), None);
    assert_eq!(
        parse_figure_line("![a [1] b\\] c](x \"d\")"),
        Some(("a [1] b\\] c", "x", "d".to_string()))
    );
    assert_eq!(parse_figure_line("![a]( \"c\")"), None);
    assert_eq!(parse_figure_line("![a](x.png \"c')"), None);
    assert_eq!(parse_figure_line("![a](x.png \")"), None);
    assert_eq!(parse_figure_line("![a](x.png '')"), Some(("a", "x.png", String::new())));
}

#[test]
fn a_figure_at_the_end_has_lines_of_its_own() {
    assert_eq!(expand_figures_md("![a](x.png \"c\")"), "![a](x.png)\n\n*c*");
    assert_eq!(
        expand_figures_html("text\r\n![a](x.png \"c\")"),
        "text\r\n\n<figure><img src=\"x.png\" alt=\"a\"><figcaption>c</figcaption></figure>\n\n"
    );
}

#[test]
fn figures_are_expanded_once() {
    for src in ["![a](x.png \"c\")", "  ![a](x.png 'c * d')\r\nnext\n![b](y \"\")\n", "text", ""] {
        let md = expand_figures_md(src);
        assert_eq!(expand_figures_md(&md), md);
        let html = expand_figures_html(src);
        assert_eq!(expand_figures_html(&html), html);
        let plain = src.lines().all(|l| parse_figure_line(l).is_none());
        assert_eq!(md == src, plain);
        assert_eq!(html == src, plain);
    }
}

#[test]
fn escaping_goes_piece_by_piece_and_back() {
    let (a, b) = ("&lt;<", ">\"'&amp;x");
    let both = format!("{a}{b}");
    let html = escape_html(&both);
    assert_eq!(html, escape_html(a) + &escape_html(b));
    assert!(!html.contains(['<', '>', '"', '\'']));
    let back = html
        .replace("&lt;", "<")
        .replace("&gt;", ">")
        .replace("&quot;", "\"")
        .replace("&#39;", "'")
        .replace("&amp;", "&");
    assert_eq!(back, both);
    assert_eq!(escape_html("&lt;"), "&amp;lt;");
}
