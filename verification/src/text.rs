//! Text as a sequence of characters: searching, trimming and changing case.
use vstd::prelude::*;
use vstd::slice::slice_subrange;

verus! {

/// `String::push` appends one character to the end of the text.
pub assume_specification[ String::push ](s: &mut String, c: char)
    ensures
        final(s)@ == old(s)@.push(c),
;

/// The characters of `s`, one by one.
pub fn to_chars(s: &str) -> (out: Vec<char>)
    ensures
        out@ == s@,
{
    let mut out: Vec<char> = Vec::new();
    for c in it: s.chars()
        invariant
            it.seq() == s@,
            out@ == s@.take(it.index() as int),
    {
        out.push(c);
        assert(s@.take(it.index() + 1) =~= s@.take(it.index() as int).push(c));
    }
    assert(s@.take(s@.len() as int) =~= s@);
    out
}

/// The string that holds the characters of `s`.
pub fn to_text(s: &[char]) -> (out: String)
    ensures
        out@ == s@,
{
    let mut out: String = String::new();
    let mut i: usize = 0;
    while i < s.len()
        invariant
            i <= s.len(),
            out@ == s@.take(i as int),
        decreases s.len() - i,
    {
        out.push(s[i]);
        i += 1;
        assert(s@.take(i as int) =~= s@.take(i - 1).push(s@[i - 1]));
    }
    assert(s@.take(s@.len() as int) =~= s@);
    out
}

/// The texts of a sequence of strings.
pub open spec fn text_views(texts: Seq<String>) -> Seq<Seq<char>> {
    Seq::new(texts.len(), |i: int| texts[i]@)
}

/// Appends the characters of `s` to `out`.
pub fn push_chars(out: &mut Vec<char>, s: &[char])
    ensures
        final(out)@ == old(out)@ + s@,
{
    let mut i: usize = 0;
    assert(out@ =~= old(out)@ + s@.take(0));
    while i < s.len()
        invariant
            i <= s.len(),
            out@ == old(out)@ + s@.take(i as int),
        decreases s.len() - i,
    {
        out.push(s[i]);
        i += 1;
        assert(out@ =~= old(out)@ + s@.take(i as int));
    }
    assert(s@.take(s@.len() as int) =~= s@);
}

/// Appends the characters of `s` to `out`.
pub fn push_str(out: &mut Vec<char>, s: &str)
    ensures
        final(out)@ == old(out)@ + s@,
{
    let chars = to_chars(s);
    push_chars(out, chars.as_slice());
}

/// The text of `a` and then `b`.
pub fn appended(a: &str, b: &str) -> (out: String)
    ensures
        out@ == a@ + b@,
{
    let mut out = to_chars(a);
    push_str(&mut out, b);
    to_text(out.as_slice())
}

/// A character with the Unicode property `White_Space`.
pub open spec fn is_space(c: char) -> bool {
    ||| '\u{9}' <= c <= '\u{d}'
    ||| c == ' '
    ||| c == '\u{85}'
    ||| c == '\u{a0}'
    ||| c == '\u{1680}'
    ||| '\u{2000}' <= c <= '\u{200a}'
    ||| c == '\u{2028}'
    ||| c == '\u{2029}'
    ||| c == '\u{202f}'
    ||| c == '\u{205f}'
    ||| c == '\u{3000}'
}

/// Whether `c` has the Unicode property `White_Space`.
pub fn char_is_space(c: char) -> (b: bool)
    ensures
        b == is_space(c),
{
    ('\u{9}' <= c && c <= '\u{d}') || c == ' ' || c == '\u{85}' || c == '\u{a0}' || c == '\u{1680}'
        || ('\u{2000}' <= c && c <= '\u{200a}') || c == '\u{2028}' || c == '\u{2029}' || c
        == '\u{202f}' || c == '\u{205f}' || c == '\u{3000}'
}

/// `s` without the whitespace that it begins with.
pub open spec fn trim_start(s: Seq<char>) -> Seq<char>
    decreases s.len(),
{
    if s.len() > 0 && is_space(s[0]) {
        trim_start(s.skip(1))
    } else {
        s
    }
}

/// `s` without the whitespace that it ends with.
pub open spec fn trim_end(s: Seq<char>) -> Seq<char>
    decreases s.len(),
{
    if s.len() > 0 && is_space(s.last()) {
        trim_end(s.drop_last())
    } else {
        s
    }
}

/// `s` without the whitespace at either end.
pub open spec fn trim(s: Seq<char>) -> Seq<char> {
    trim_end(trim_start(s))
}

/// The number of whitespace characters that `s` begins with.
pub fn leading_space(s: &[char]) -> (n: usize)
    ensures
        n <= s@.len(),
        s@.skip(n as int) == trim_start(s@),
        n == s@.len() - trim_start(s@).len(),
{
    let mut i: usize = 0;
    assert(s@.skip(0) =~= s@);
    while i < s.len() && char_is_space(s[i])
        invariant
            i <= s.len(),
            trim_start(s@) == trim_start(s@.skip(i as int)),
        decreases s.len() - i,
    {
        assert(s@.skip(i as int).skip(1) =~= s@.skip(i + 1));
        i += 1;
    }
    i
}

/// The length of `s` without the whitespace that it ends with.
pub fn trimmed_len(s: &[char]) -> (n: usize)
    ensures
        n <= s@.len(),
        s@.take(n as int) == trim_end(s@),
{
    let mut i: usize = s.len();
    assert(s@.take(s@.len() as int) =~= s@);
    while i > 0 && char_is_space(s[i - 1])
        invariant
            i <= s.len(),
            trim_end(s@) == trim_end(s@.take(i as int)),
        decreases i,
    {
        assert(s@.take(i as int).drop_last() =~= s@.take(i - 1));
        i -= 1;
    }
    i
}

/// `s` without the whitespace that it begins with.
pub fn trim_start_chars(s: &[char]) -> (out: &[char])
    ensures
        out@ == trim_start(s@),
{
    let n = leading_space(s);
    slice_subrange(s, n, s.len())
}

/// `s` without the whitespace at either end.
pub fn trim_chars(s: &[char]) -> (out: &[char])
    ensures
        out@ == trim(s@),
{
    let t = trim_start_chars(s);
    let n = trimmed_len(t);
    slice_subrange(t, 0, n)
}

/// `c` in lower case where it is an ASCII letter.
pub open spec fn ascii_lower(c: char) -> char {
    if 'A' <= c <= 'Z' {
        (c as u8 + 32) as char
    } else {
        c
    }
}

/// `s` with its ASCII letters in lower case.
pub open spec fn ascii_lowered(s: Seq<char>) -> Seq<char> {
    s.map_values(|c: char| ascii_lower(c))
}

/// `s` with its ASCII letters in lower case.
pub fn to_ascii_lower(s: &[char]) -> (out: Vec<char>)
    ensures
        out@ == ascii_lowered(s@),
{
    let mut out: Vec<char> = Vec::new();
    let mut i: usize = 0;
    while i < s.len()
        invariant
            i <= s.len(),
            out@ == ascii_lowered(s@).take(i as int),
        decreases s.len() - i,
    {
        let c = s[i];
        let low = if 'A' <= c && c <= 'Z' {
            (c as u8 + 32) as char
        } else {
            c
        };
        out.push(low);
        i += 1;
        assert(ascii_lowered(s@).take(i as int) =~= ascii_lowered(s@).take(i - 1).push(low));
    }
    assert(ascii_lowered(s@).take(i as int) =~= ascii_lowered(s@));
    out
}

/// Whether `s` is `word`.
pub fn is_word(s: &[char], word: &str) -> (b: bool)
    ensures
        b == (s@ == word@),
{
    let w = to_chars(word);
    let b = s.len() == w.len() && starts_with(s, word);
    proof {
        if b {
            assert(s@.subrange(0, word@.len() as int) =~= s@);
        } else if s@ == word@ {
            assert(s@.subrange(0, word@.len() as int) =~= s@);
        }
    }
    b
}

/// Whether `s` begins with `word`.
pub fn starts_with(s: &[char], word: &str) -> (b: bool)
    ensures
        b == word@.is_prefix_of(s@),
{
    let w = to_chars(word);
    if w.len() > s.len() {
        return false;
    }
    let mut i: usize = 0;
    while i < w.len()
        invariant
            i <= w.len() <= s.len(),
            w@ == word@,
            forall|j: int| 0 <= j < i ==> w@[j] == s@[j],
        decreases w.len() - i,
    {
        if w[i] != s[i] {
            assert(s@.subrange(0, w@.len() as int)[i as int] == s@[i as int]);
            return false;
        }
        i += 1;
    }
    assert(w@ =~= s@.subrange(0, w@.len() as int));
    true
}

/// Whether `s` ends with `word`.
pub fn ends_with(s: &[char], word: &str) -> (b: bool)
    ensures
        b == word@.is_suffix_of(s@),
{
    let w = to_chars(word);
    if w.len() > s.len() {
        return false;
    }
    let off: usize = s.len() - w.len();
    let mut i: usize = 0;
    while i < w.len()
        invariant
            i <= w.len(),
            off + w.len() == s.len(),
            w@ == word@,
            forall|j: int| 0 <= j < i ==> w@[j] == s@[off + j],
        decreases w.len() - i,
    {
        if w[i] != s[off + i] {
            assert(s@.subrange(off as int, s@.len() as int)[i as int] == s@[off + i]);
            return false;
        }
        i += 1;
    }
    assert(w@ =~= s@.subrange(off as int, s@.len() as int));
    true
}

/// `part` stands somewhere in `whole`.
pub open spec fn is_part_of(part: Seq<char>, whole: Seq<char>) -> bool {
    exists|i: int|
        0 <= i && i + part.len() <= whole.len() && part == #[trigger] whole.subrange(
            i,
            i + part.len(),
        )
}

/// Whether `word` stands somewhere in `s`.
pub fn contains_word(s: &[char], word: &str) -> (b: bool)
    ensures
        b == is_part_of(word@, s@),
{
    let n = to_chars(word).len();
    if n == 0 {
        assert(word@ =~= s@.subrange(0, 0int + word@.len()));
        return true;
    }
    if n > s.len() {
        return false;
    }
    let mut i: usize = 0;
    while i <= s.len() - n
        invariant
            i <= s.len() - n + 1,
            0 < n <= s.len(),
            n == word@.len(),
            forall|j: int| 0 <= j < i ==> word@ != #[trigger] s@.subrange(j, j + n),
        decreases s.len() - n + 1 - i,
    {
        let here = slice_subrange(s, i, i + n);
        if is_word(here, word) {
            return true;
        }
        i += 1;
    }
    false
}

/// The first place at or after `from` where `s` holds `c`.
pub open spec fn find_char(s: Seq<char>, from: int, c: char) -> Option<int>
    decreases s.len() - from,
{
    if from >= s.len() {
        None
    } else if s[from] == c {
        Some(from)
    } else {
        find_char(s, from + 1, c)
    }
}

/// The first place at or after `from` where `s` holds `a` and then `b`.
pub open spec fn find_pair(s: Seq<char>, from: int, a: char, b: char) -> Option<int>
    decreases s.len() - from,
{
    if from + 1 >= s.len() {
        None
    } else if s[from] == a && s[from + 1] == b {
        Some(from)
    } else {
        find_pair(s, from + 1, a, b)
    }
}

/// The first place where `s` holds whitespace, at or after `from`.
pub open spec fn find_space(s: Seq<char>, from: int) -> Option<int>
    decreases s.len() - from,
{
    if from >= s.len() {
        None
    } else if is_space(s[from]) {
        Some(from)
    } else {
        find_space(s, from + 1)
    }
}

/// What `find_char` finds is the first such place.
pub proof fn lemma_find_char(s: Seq<char>, from: int, c: char)
    requires
        0 <= from,
    ensures
        find_char(s, from, c) matches Some(i) ==> from <= i < s.len() && s[i] == c && (forall|j: int|
            from <= j < i ==> s[j] != c),
        find_char(s, from, c) is None ==> forall|j: int| from <= j < s.len() ==> s[j] != c,
    decreases s.len() - from,
{
    if from < s.len() && s[from] != c {
        lemma_find_char(s, from + 1, c);
    }
}

/// What `find_pair` finds is the first such place.
pub proof fn lemma_find_pair(s: Seq<char>, from: int, a: char, b: char)
    requires
        0 <= from,
    ensures
        find_pair(s, from, a, b) matches Some(i) ==> from <= i && i + 1 < s.len() && s[i] == a && s[i
            + 1] == b && (forall|j: int| from <= j < i ==> !(s[j] == a && #[trigger] s[j + 1] == b)),
        find_pair(s, from, a, b) is None ==> forall|j: int|
            from <= j && j + 1 < s.len() ==> !(s[j] == a && #[trigger] s[j + 1] == b),
    decreases s.len() - from,
{
    if from + 1 < s.len() && !(s[from] == a && s[from + 1] == b) {
        lemma_find_pair(s, from + 1, a, b);
    }
}

/// What `find_space` finds is the first such place.
pub proof fn lemma_find_space(s: Seq<char>, from: int)
    requires
        0 <= from,
    ensures
        find_space(s, from) matches Some(i) ==> from <= i < s.len() && is_space(s[i]) && (forall|
            j: int,
        |
            from <= j < i ==> !is_space(#[trigger] s[j])),
        find_space(s, from) is None ==> forall|j: int|
            from <= j < s.len() ==> !is_space(#[trigger] s[j]),
    decreases s.len() - from,
{
    if from < s.len() && !is_space(s[from]) {
        lemma_find_space(s, from + 1);
    }
}

/// The first place at or after `from` where `s` holds `c`.
pub fn position_of(s: &[char], from: usize, c: char) -> (r: Option<usize>)
    ensures
        match find_char(s@, from as int, c) {
            Some(i) => r is Some && r->0 == i && from <= i < s@.len() && s@[i] == c,
            None => r is None,
        },
{
    proof {
        lemma_find_char(s@, from as int, c);
    }
    let mut i: usize = from;
    while i < s.len()
        invariant
            from <= i,
            find_char(s@, from as int, c) == find_char(s@, i as int, c),
        decreases s.len() - i,
    {
        if s[i] == c {
            return Some(i);
        }
        i += 1;
    }
    None
}

/// The first place at or after `from` where `s` holds `a` and then `b`.
pub fn position_of_pair(s: &[char], from: usize, a: char, b: char) -> (r: Option<usize>)
    ensures
        match find_pair(s@, from as int, a, b) {
            Some(i) => r is Some && r->0 == i && from <= i && i + 1 < s@.len() && s@[i] == a && s@[i
                + 1] == b,
            None => r is None,
        },
{
    proof {
        lemma_find_pair(s@, from as int, a, b);
    }
    let mut i: usize = from;
    while i < s.len() && i + 1 < s.len()
        invariant
            from <= i,
            find_pair(s@, from as int, a, b) == find_pair(s@, i as int, a, b),
        decreases s.len() - i,
    {
        if s[i] == a && s[i + 1] == b {
            return Some(i);
        }
        i += 1;
    }
    None
}

/// The first place where `s` holds whitespace.
pub fn position_of_space(s: &[char]) -> (r: Option<usize>)
    ensures
        match find_space(s@, 0) {
            Some(i) => r is Some && r->0 == i && 0 <= i < s@.len() && is_space(s@[i]),
            None => r is None,
        },
{
    proof {
        lemma_find_space(s@, 0);
    }
    let mut i: usize = 0;
    while i < s.len()
        invariant
            find_space(s@, 0) == find_space(s@, i as int),
        decreases s.len() - i,
    {
        if char_is_space(s[i]) {
            return Some(i);
        }
        i += 1;
    }
    None
}

/// Trimming leaves a part of the text.
pub proof fn lemma_trim_is_part(s: Seq<char>)
    ensures
        exists|i: int, j: int| 0 <= i <= j <= s.len() && trim(s) == #[trigger] s.subrange(i, j),
{
    lemma_trim_start_is_tail(s);
    let t = trim_start(s);
    lemma_trim_end_is_head(t);
    let i = s.len() - t.len();
    let n = trim(s).len() as int;
    assert(trim(s) =~= s.subrange(i, i + n));
}

/// Trimming at the start leaves out the whitespace before the first other character.
pub proof fn lemma_trim_start_is_tail(s: Seq<char>)
    ensures
        trim_start(s).len() <= s.len(),
        trim_start(s) == s.skip(s.len() - trim_start(s).len()),
        trim_start(s).len() > 0 ==> !is_space(trim_start(s)[0]),
        forall|i: int| 0 <= i < s.len() - trim_start(s).len() ==> is_space(#[trigger] s[i]),
    decreases s.len(),
{
    if s.len() > 0 && is_space(s[0]) {
        let rest = s.skip(1);
        lemma_trim_start_is_tail(rest);
        assert forall|i: int| 0 <= i < s.len() - trim_start(s).len() implies is_space(
            #[trigger] s[i],
        ) by {
            if i > 0 {
                assert(s[i] == rest[i - 1]);
            }
        }
        assert(rest.skip(rest.len() - trim_start(rest).len()) =~= s.skip(
            s.len() - trim_start(rest).len(),
        ));
    } else {
        assert(s.skip(0) =~= s);
    }
}

proof fn lemma_trim_end_is_head(s: Seq<char>)
    ensures
        trim_end(s).len() <= s.len(),
        trim_end(s) == s.take(trim_end(s).len() as int),
        trim_end(s).len() > 0 ==> !is_space(trim_end(s).last()),
    decreases s.len(),
{
    if s.len() > 0 && is_space(s.last()) {
        let front = s.drop_last();
        lemma_trim_end_is_head(front);
        assert(front.take(trim_end(front).len() as int) =~= s.take(trim_end(front).len() as int));
    } else {
        assert(s.take(s.len() as int) =~= s);
    }
}

/// A trimmed text neither begins nor ends with whitespace, and trimming it again changes nothing.
pub proof fn lemma_trimmed(s: Seq<char>)
    ensures
        trim(s).len() > 0 ==> !is_space(trim(s)[0]) && !is_space(trim(s).last()),
        trim(trim(s)) == trim(s),
{
    let t = trim_start(s);
    lemma_trim_start_is_tail(s);
    lemma_trim_end_is_head(t);
    if trim(s).len() > 0 {
        assert(trim(s)[0] == t[0]);
    }
    lemma_nothing_to_trim(trim(s));
}

/// A text that neither begins nor ends with whitespace is trimmed.
pub proof fn lemma_nothing_to_trim(s: Seq<char>)
    requires
        s.len() > 0 ==> !is_space(s[0]) && !is_space(s.last()),
    ensures
        trim(s) == s,
{
}

} // verus!
