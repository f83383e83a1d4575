//! The page that the book is printed from.
use crate::text::{push_str, to_text};
use vstd::prelude::*;

verus! {

/// The page up to its title.
pub const PAGE_START: &'static str = r#"<!DOCTYPE html>
<html>
<head>
<meta charset="utf-8">
<title>"#;

/// The page between its title and its body.
pub const PAGE_STYLE: &'static str = r#"</title>
<style>
  body { font-family: -apple-system, BlinkMacSystemFont, 'Segoe UI', sans-serif;
         max-width: 860px; margin: 40px auto; padding: 0 20px;
         line-height: 1.6; color: #1a1a1a; }
  h1,h2,h3,h4 { margin-top: 1.4em; }
  h1 { border-bottom: 2px solid #e0e0e0; padding-bottom: .3em; }
  h2 { border-bottom: 1px solid #eee; padding-bottom: .2em; }
  code { background: #f4f4f4; border-radius: 3px;
          padding: 0.1em 0.35em; font-size: 0.9em; }
  pre  { background: #f4f4f4; border-radius: 5px;
          padding: 1em; overflow-x: auto; }
  pre code { background: none; padding: 0; }
  table { border-collapse: collapse; width: 100%; margin: 1em 0; }
  th, td { border: 1px solid #ddd; padding: 6px 12px; text-align: left; }
  th { background: #f0f0f0; font-weight: 600; }
  tr:nth-child(even) { background: #fafafa; }
  blockquote { border-left: 4px solid #ccc; margin: 0;
                padding-left: 1em; color: #555; }
  hr { border: none; border-top: 1px solid #ddd; margin: 2em 0; }
  img { max-width: 100%; }
  figure { margin: 1.5em auto; text-align: center; page-break-inside: avoid; }
  figure img { max-width: 100%; display: block; margin: 0 auto; }
  figcaption { font-style: italic; color: #555; font-size: 0.92em;
                margin-top: 0.4em; text-align: center; }
  .toc { margin-bottom: 2em; }
  .toc h1 { font-size: 1.6em; border-bottom: 2px solid #333; padding-bottom: .3em; }
  .toc ul { padding-left: 1.4em; list-style: none; margin: 0.2em 0; }
  .toc .toc-root { padding-left: 0; }
  .toc li { margin: 0.25em 0; line-height: 1.5; }
  .toc .toc-section { margin-top: 0.8em; font-size: 1.05em; }
  .toc a { color: #1a73e8; text-decoration: none; }
  .toc a:hover { text-decoration: underline; }
  .doc-title { page-break-after: avoid; }
</style>
</head>
<body>
"#;

/// The page behind its body.
pub const PAGE_END: &'static str = r#"
</body>
</html>"#;

/// The page with the title `title` and the body `body`.
pub open spec fn page(body: Seq<char>, title: Seq<char>) -> Seq<char> {
    PAGE_START@ + title + PAGE_STYLE@ + body + PAGE_END@
}

/// The HTML `body` in a page with the title `title` that is styled for printing.
pub fn html_page(body: &str, title: &str) -> (out: String)
    ensures
        out@ == page(body@, title@),
{
    let mut out: Vec<char> = Vec::new();
    push_str(&mut out, PAGE_START);
    push_str(&mut out, title);
    push_str(&mut out, PAGE_STYLE);
    push_str(&mut out, body);
    push_str(&mut out, PAGE_END);
    assert(out@ =~= page(body@, title@));
    to_text(out.as_slice())
}

} // verus!
