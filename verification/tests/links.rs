use mdreader::links::{md_link_targets, rewrite_md_links, TextMap};

fn map(pairs: &[(&str, &str)]) -> TextMap {
    let mut m = TextMap::new();
    for (k, v) in pairs {
        m.insert(k.to_string(), v.to_string());
    }
    m
}

#[test]
fn links_into_the_book_are_rewritten() {
    let resolved = map(&[("b.md", "/d/b.md"), ("../c.md", "/c.md")]);
    let places = map(&[("/d/b.md", "doc-1"), ("/c.md", "doc-2")]);
    let src = "See [B](b.md) and [C](../c.md#part).\nEnd [x](x.md)\n";
    assert_eq!(
        rewrite_md_links(src, &resolved, &places),
        "See [B](#doc-1) and [C](#doc-2).\nEnd [x](x.md)"
    );
}

#[test]
fn links_that_lead_nowhere_stay() {
    let src = "[B](b.md) [C](c.html) ](b.md) [D](b.md broken) [E](b.md";
    assert_eq!(rewrite_md_links(src, &TextMap::new(), &TextMap::new()), src);
    let resolved = map(&[("b.md", "/d/b.md")]);
    assert_eq!(rewrite_md_links(src, &resolved, &TextMap::new()), src);
    let places = map(&[("/d/b.md", "doc-0")]);
    assert_eq!(
        rewrite_md_links("](b.md) [D](b.md broken) [E](b.md", &resolved, &places),
        "](b.md) [D](b.md broken) [E](b.md"
    );
}

#[test]
fn code_is_left_alone() {
    let resolved = map(&[("b.md", "/d/b.md")]);
    let places = map(&[("/d/b.md", "doc-0")]);
    let src = "```\n[B](b.md)\n```\n`[B](b.md)` [B](b.md)\n  ```rust\n[B](b.md)";
    assert_eq!(
        rewrite_md_links(src, &resolved, &places),
        "```\n[B](b.md)\n```\n`[B](b.md)` [B](#doc-0)\n  ```rust\n[B](b.md)"
    );
}

#[test]
fn targets_are_listed_in_order() {
    let src = "[B](b.md#x) [C](c.html) `[D](d.md)`\n```\n[E](e.md)\n```\n[F](f.md)";
    assert_eq!(md_link_targets(src), vec!["b.md".to_string(), "f.md".to_string()]);
}

#[test]
fn the_places_of_targets_decide() {
    let src = "[B](b.md)";
    let more = map(&[("b.md", "/b.md"), ("unused.md", "/u.md")]);
    let less = map(&[("b.md", "/b.md")]);
    let places = map(&[("/b.md", "doc-0"), ("/u.md", "doc-1")]);
    assert_eq!(
        rewrite_md_links(src, &more, &places),
        rewrite_md_links(src, &less, &places)
    );
}

#[test]
fn a_map_holds_what_was_put_last() {
    let mut m = map(&[("a", "1"), ("b", "2"), ("a", "3")]);
    assert_eq!(m.get("a"), Some("3"));
    assert_eq!(m.get("b"), Some("2"));
    assert_eq!(m.get("c"), None);
    m.insert("c".to_string(), "4".to_string());
    assert_eq!(m.get("c"), Some("4"));
}
