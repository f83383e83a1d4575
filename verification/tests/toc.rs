use mdreader::toc::{extract_intro, is_nav_only, strip_inline_toc, text_is_link_index};

const INDEX: &str = "# Docs\n\nWelcome.\n\n- [A](a.md)\n- [B](b.md)\n* [C](c.md)\n- [D](d.md)\n";

#[test]
fn only_readmes_are_for_navigation() {
    assert!(is_nav_only(INDEX, "/d/README.md"));
    assert!(is_nav_only(INDEX, "/d/readme.MD"));
    assert!(!is_nav_only(INDEX, "/d/index.md"));
    assert!(!is_nav_only("# Docs\n\ntext\nmore text\nand more\n", "/d/README.md"));
}

#[test]
fn an_index_is_mostly_links() {
    // Four of five lines of content are links.
    assert!(text_is_link_index(INDEX));
    // Seven in ten are enough, and less are not.
    let seven = "- [A](a.md)\n".repeat(7) + &"prose\n".repeat(3);
    assert!(text_is_link_index(&seven));
    assert!(is_nav_only(&seven, "README.md"));
    let fewer = "- [a](a.md)\n".repeat(69) + &"x\n".repeat(31);
    assert!(!text_is_link_index(&fewer));
    // Two lines of content are too few.
    assert!(!text_is_link_index("- [a](a.md)\n- [b](b.md)\n"));
    // Headings, rules and blank lines are no content.
    assert!(text_is_link_index("# T\n---\n\n- [a](a.md)\n- [b](b.md)\n- [c](c.md)\n"));
    assert!(!text_is_link_index(""));
}

#[test]
fn an_index_has_an_introduction() {
    assert_eq!(extract_intro(INDEX), "Welcome.");
    assert_eq!(extract_intro("# T\n# U\nOne\n\n# V\nTwo\n## [S](s.md)\nrest"), "One\n\n# V\nTwo");
    assert_eq!(extract_intro("Hello\n* [A](a.md)\n- [B](b.md)\n"), "Hello");
    assert_eq!(extract_intro("- plain\n- [x](x.html)\n- [A](a.md)\n"), "- plain\n- [x](x.html)");
    assert_eq!(extract_intro("- [A](a.md)\n"), "");
    assert_eq!(extract_intro(""), "");
}

#[test]
fn inline_contents_are_stripped() {
    let src = "# T\n\nText\n\n### **In this part:**\n\n- [A](a.md)\n* [B](b.md)\n\n";
    assert_eq!(strip_inline_toc(src), "# T\n\nText\n");
    let src = "Text\n## Table of Contents\n- [A](a.md)";
    assert_eq!(strip_inline_toc(src), "Text");
    let src = "#TABLE OF CONTENTS\n- [A](a.md)\n";
    assert_eq!(strip_inline_toc(src), "");
}

#[test]
fn contents_before_text_are_kept() {
    let src = "## Table of Contents\n- [A](a.md)\n\nBody text.";
    assert_eq!(strip_inline_toc(src), src);
    let src = "## In this part:\n- [A](a.md)\n## Table of Contents\n- [B](b.md)";
    assert_eq!(strip_inline_toc(src), "## In this part:\n- [A](a.md)");
    let src = "## Table of Contents\n\n";
    assert_eq!(strip_inline_toc(src), "## Table of Contents\n");
}

#[test]
fn other_blocks_are_kept() {
    let src = "## Contents\n- [A](a.md)\nText";
    assert_eq!(strip_inline_toc(src), src);
    let src = "## Table of Contents\nText\n- [A](a.md)";
    assert_eq!(strip_inline_toc(src), src);
    let src = "## Table of Contents\n- [A](a.html)";
    assert_eq!(strip_inline_toc(src), src);
    let src = "Table of Contents\n- [A](a.md)";
    assert_eq!(strip_inline_toc(src), src);
    let src = "# In this part\n- [A](a.md)";
    assert_eq!(strip_inline_toc(src), src);
}
