use mdreader::images::{
    fill_uris, has_uri_scheme, image_parts, resolve_image_uris, to_file_url, url_of_path,
};

fn base() -> &'static str {
    "C:/docs"
}

#[test]
fn resolves_relative_inline_image() {
    let src = "See ![diagram](img/flow.png) below.";
    let got = resolve_image_uris(src, base());
    assert!(got.contains("![diagram](file:///C:/docs/img/flow.png)"), "got: {got}");
}

#[test]
fn preserves_http_url() {
    let src = "![logo](https://example.com/logo.png)";
    let got = resolve_image_uris(src, base());
    assert_eq!(got, "![logo](https://example.com/logo.png)");
}

#[test]
fn preserves_title_attribute() {
    let src = r#"![alt](foo.png "caption text")"#;
    let got = resolve_image_uris(src, base());
    assert!(got.contains(r#"(file:///C:/docs/foo.png "caption text")"#), "got: {got}");
}

#[test]
fn rewrites_reference_definition() {
    let src = "![pic][p1]\n\n[p1]: assets/a.jpg\n";
    let got = resolve_image_uris(src, base());
    assert!(got.contains("[p1]: file:///C:/docs/assets/a.jpg"), "got: {got}");
}

#[test]
fn leaves_non_image_links_alone() {
    let src = "See [the doc](other.md) for details.";
    let got = resolve_image_uris(src, base());
    assert_eq!(got, src);
}

#[test]
fn handles_no_images() {
    let src = "# Plain text\n\nNo images here.\n";
    let got = resolve_image_uris(src, base());
    assert_eq!(got, src);
}

#[test]
fn schemes_are_recognised() {
    assert!(has_uri_scheme("http://a"));
    assert!(has_uri_scheme("https://a"));
    assert!(has_uri_scheme("file://a"));
    assert!(has_uri_scheme("data:image/png;base64,AA"));
    assert!(has_uri_scheme("#here"));
    assert!(!has_uri_scheme("img/flow.png"));
    assert!(!has_uri_scheme(" http://a"));
    assert!(!has_uri_scheme(""));
}

#[test]
fn paths_become_file_urls() {
    assert_eq!(to_file_url("  img/a.png ", "C:/docs"), "file:///C:/docs/img/a.png");
    assert_eq!(to_file_url("a.png", "/srv/docs"), "file:///srv/docs/a.png");
    assert_eq!(to_file_url("/abs/a.png", "/srv/docs"), "file:///abs/a.png");
    assert_eq!(to_file_url("a.png", "docs/"), "file:///docs/a.png");
    assert_eq!(to_file_url("a.png", ""), "file:///a.png");
    assert_eq!(url_of_path("C:\\docs\\a.png"), "file:///C:/docs/a.png");
    assert_eq!(url_of_path("/docs/a.png"), "file:///docs/a.png");
}

#[test]
fn several_images_stand_in_a_line() {
    let src = "![a](x.png) and ![b](http://h/y.png) and ![c](z.png)\r\n![d](w.png";
    let got = resolve_image_uris(src, "/d");
    assert_eq!(
        got,
        "![a](file:///d/x.png) and ![b](http://h/y.png) and ![c](file:///d/z.png)\r\n![d](w.png"
    );
}

#[test]
fn definitions_keep_their_title_and_line_ending() {
    let src = "  [p1]: assets/a.jpg \"cap\"\r\nnext\n[p2]: https://h/a.png\n";
    let got = resolve_image_uris(src, "/d");
    assert_eq!(
        got,
        "  [p1]: file:///d/assets/a.jpg \"cap\"\r\nnext\n[p2]: https://h/a.png\n"
    );
}

#[test]
fn uris_are_filled_in_order() {
    let parts = image_parts("a ![x](1.png) b ![y](2.png)\n");
    let urls = vec!["one".to_string(), "two".to_string()];
    assert_eq!(fill_uris(&parts, &urls), "a ![x](one) b ![y](two)\n");
}

#[test]
fn only_local_uris_are_asked_for() {
    let parts = image_parts("![x](http://h/1.png) ![y](#z) ![z](data:,a) text\n");
    assert_eq!(fill_uris(&parts, &Vec::new()), "![x](http://h/1.png) ![y](#z) ![z](data:,a) text\n");
}

#[test]
fn lines_are_resolved_one_by_one() {
    let a = "![x](1.png)\n[p]: 2.png\r\n";
    let b = "![y](3.png) and ![z](4.png \"t\")";
    let both = format!("{a}{b}");
    let dir = "/docs";
    assert_eq!(
        resolve_image_uris(&both, dir),
        resolve_image_uris(a, dir) + &resolve_image_uris(b, dir)
    );
}

#[test]
fn images_are_resolved_once() {
    let src = "![x](1.png)  ![y]( 2.png \t \"t\" ) \\![z](3.png) ![w](http://h/4.png 't')\n![v](5![.png)";
    let once = resolve_image_uris(src, "/docs");
    assert_eq!(resolve_image_uris(&once, "/docs"), once);
}

#[test]
fn absolute_paths_do_not_depend_on_the_directory() {
    for dir in ["/docs", "other", "", "/"] {
        let url = to_file_url("/abs/a.png", dir);
        assert_eq!(url, "file:///abs/a.png");
        assert_eq!(to_file_url("  /abs/a.png ", dir), url);
    }
    assert_eq!(to_file_url("a.png", "//server/share"), "file:////server/share/a.png");
    let url = to_file_url("img\\a.png", "/docs");
    assert!(url.starts_with("file:///") && !url.contains('\\') && has_uri_scheme(&url));
}
