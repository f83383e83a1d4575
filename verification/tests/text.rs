use mdreader::lines::{lines_of, pieces_of};
use mdreader::text::{
    char_is_space, appended, contains_word, ends_with, position_of, position_of_pair,
    position_of_space, starts_with, to_ascii_lower, to_chars, to_text, trim_chars,
};

fn lines(s: &str) -> Vec<String> {
    let chars = to_chars(s);
    lines_of(&chars).iter().map(|l| to_text(l)).collect()
}

#[test]
fn text_is_characters() {
    assert_eq!(to_chars("aé漢"), vec!['a', 'é', '漢']);
    assert_eq!(to_text(&['a', 'é', '漢']), "aé漢");
    assert_eq!(appended("a", "b"), "ab");
}

#[test]
fn space_is_trimmed() {
    for c in ['\t', '\n', '\u{b}', '\u{c}', '\r', ' ', '\u{85}', '\u{a0}', '\u{2003}', '\u{3000}'] {
        assert!(char_is_space(c));
    }
    for n in 0..0x3100 {
        if let Some(c) = char::from_u32(n) {
            assert_eq!(char_is_space(c), c.is_whitespace());
        }
    }
    let chars = to_chars(" \t a b\u{a0}\n");
    assert_eq!(to_text(trim_chars(&chars)), "a b");
}

#[test]
fn words_are_found() {
    let s = to_chars("see [a](b.md)");
    assert!(starts_with(&s, "see"));
    assert!(!starts_with(&s, "seen"));
    assert!(ends_with(&s, ".md)"));
    assert!(!ends_with(&s, ".md"));
    assert!(contains_word(&s, "](b"));
    assert!(!contains_word(&s, "](c"));
    assert_eq!(position_of(&s, 5, ')'), Some(12));
    assert_eq!(position_of(&s, 0, 'x'), None);
    assert_eq!(position_of_pair(&s, 0, ']', '('), Some(6));
    assert_eq!(position_of_space(&s), Some(3));
    assert_eq!(to_text(&to_ascii_lower(&to_chars("AbÉ"))), "abÉ");
}

#[test]
fn lines_lose_their_endings() {
    for s in ["", "a", "a\n", "a\n\n", "a\r\nb", "a\r\r\nb\r", "\n", "\r\n", "a\nb\nc\n"] {
        let expected: Vec<&str> = s.lines().collect();
        assert_eq!(lines(s), expected);
        let chars = to_chars(s);
        let pieces: Vec<String> = pieces_of(&chars).iter().map(|p| to_text(p)).collect();
        let whole: Vec<&str> = s.split_inclusive('\n').collect();
        assert_eq!(pieces, whole);
    }
}

#[test]
fn joined_lines_are_found_again() {
    let ls = vec!["a".to_string(), "".to_string(), "b c".to_string()];
    assert_eq!(lines(&ls.join("\n")), ls);
}
