use mdreader::paths::{file_name, link_path, parent_dir};
use mdreader::printing::{
    browser_candidates, browsers, bundled_browser, cli_report, default_output, find_browser,
    pdf_name, print_args, print_result,
};

#[test]
fn the_output_has_a_default() {
    assert_eq!(pdf_name("notes"), "notes.pdf");
    assert_eq!(default_output("/home/me", "notes"), "/home/me/notes.pdf");
    assert_eq!(default_output("/", "notes"), "/notes.pdf");
}

#[test]
fn the_browser_is_asked_to_print() {
    assert_eq!(
        print_args("C:\\out.pdf", "C:\\tmp\\page.html"),
        vec![
            "--headless=new",
            "--disable-gpu",
            "--no-sandbox",
            "--disable-software-rasterizer",
            "--print-to-pdf=C:\\out.pdf",
            "file:///C:/tmp/page.html",
        ]
    );
}

#[test]
fn a_print_succeeds_when_the_pdf_is_there() {
    assert_eq!(print_result(true, false, "a.pdf", "x"), Ok("a.pdf".to_string()));
    assert_eq!(print_result(false, true, "a.pdf", "x"), Ok("a.pdf".to_string()));
    assert_eq!(
        print_result(false, false, "a.pdf", "boom"),
        Err("Browser error: boom".to_string())
    );
}

#[test]
fn conversions_are_reported() {
    assert_eq!(cli_report(&Ok("a.pdf".to_string())), ("PDF written: a.pdf".to_string(), 0));
    assert_eq!(cli_report(&Err("no".to_string())), ("error: no".to_string(), 1));
}

#[test]
fn browsers_are_looked_for_in_order() {
    assert_eq!(bundled_browser("/opt/md"), "/opt/md/chromium/chrome-win/chrome.exe");
    let all = browsers(&Some("/opt/md/bin/mdreader".to_string()));
    assert_eq!(all.len(), 6);
    assert_eq!(all[0], "/opt/md/chromium/chrome-win/chrome.exe");
    assert_eq!(all[1], "/opt/md/bin/chromium/chrome-win/chrome.exe");
    assert_eq!(all[2], r"C:\Program Files\Google\Chrome\Application\chrome.exe");
    assert_eq!(all[3], r"C:\Program Files (x86)\Google\Chrome\Application\chrome.exe");
    assert_eq!(all[4], r"C:\Program Files (x86)\Microsoft\Edge\Application\msedge.exe");
    assert_eq!(all[5], r"C:\Program Files\Microsoft\Edge\Application\msedge.exe");
    assert_eq!(browsers(&None).len(), 4);
    assert_eq!(browsers(&Some("/".to_string())).len(), 4);
    assert_eq!(browsers(&Some("/mdreader".to_string())).len(), 5);
}

#[test]
fn the_first_browser_that_is_there_is_taken() {
    let all = browser_candidates(Some("i".to_string()), Some("b".to_string()));
    let there = vec![false, true, true, false, false, true];
    assert_eq!(find_browser(&all, &there), Ok("b".to_string()));
    let there = vec![true, true, true, true, true, true];
    assert_eq!(find_browser(&all, &there), Ok("i".to_string()));
    let there = vec![false; 6];
    assert_eq!(
        find_browser(&all, &there),
        Err("Chrome/Edge not found — cannot generate PDF.".to_string())
    );
}

#[test]
fn paths_have_names_and_parents() {
    assert_eq!(file_name("/d/a.md"), Some("a.md".to_string()));
    assert_eq!(file_name("/d/"), Some("d".to_string()));
    assert_eq!(file_name("/"), None);
    assert_eq!(file_name(""), None);
    assert_eq!(parent_dir("/d/sub/a.md"), "/d/sub");
    assert_eq!(parent_dir("/a.md"), "/");
    assert_eq!(parent_dir("a.md"), "");
    assert_eq!(parent_dir("/"), "");
    assert_eq!(file_name("//server/share/a.md"), Some("a.md".to_string()));
    assert_eq!(link_path("/d/sub/a.md", "b.md"), "/d/sub/b.md");
    assert_eq!(link_path("/d/sub/a.md", "../b.md"), "/d/sub/../b.md");
    assert_eq!(link_path("/d/sub/a.md", "/b.md"), "/b.md");
    assert_eq!(link_path("a.md", "b.md"), "b.md");
    assert_eq!(link_path("/", "b.md"), "/b.md");
    assert_eq!(file_name("/d/a.md//"), Some("a.md".to_string()));
    assert_eq!(file_name("d/a.md/.//."), Some("a.md".to_string()));
    assert_eq!(file_name("d/.."), None);
    assert_eq!(file_name("."), None);
    assert_eq!(parent_dir("/d//sub/./a.md/"), "/d//sub");
    assert_eq!(parent_dir("./a.md"), ".");
    assert_eq!(parent_dir(".."), "");
    assert_eq!(parent_dir("./"), "");
}
