//! What holds of titles that are made from slugs.
use crate::lines::joined;
use crate::text_laws::lemma_joining;
use crate::titles::{
    all_capitalized, ascii_upper, capitalized, is_dash, lemma_word_len, slug_title, upper, word_len,
    words,
};
use vstd::prelude::*;

verus! {

/// A run of separators.
pub open spec fn all_dashes(s: Seq<char>) -> bool {
    forall|i: int| 0 <= i < s.len() ==> is_dash(#[trigger] s[i])
}

/// A text without separators.
pub open spec fn has_no_dash(s: Seq<char>) -> bool {
    forall|i: int| 0 <= i < s.len() ==> !is_dash(#[trigger] s[i])
}

/// An ASCII text.
pub open spec fn all_ascii(s: Seq<char>) -> bool {
    forall|i: int| 0 <= i < s.len() ==> (#[trigger] s[i]) as u32 <= 0x7f
}

proof fn lemma_word_len_is(s: Seq<char>, n: int)
    requires
        0 <= n <= s.len(),
        forall|i: int| 0 <= i < n ==> !is_dash(#[trigger] s[i]),
        n < s.len() ==> is_dash(s[n]),
    ensures
        word_len(s) == n,
{
    lemma_word_len(s);
    let m = word_len(s);
    if m < n {
        assert(!is_dash(s[m]));
    }
    if n < m {
        assert(!is_dash(s[n]));
    }
}

proof fn lemma_words_around_dash(a: Seq<char>, d: char, b: Seq<char>)
    requires
        is_dash(d),
    ensures
        words(a + seq![d] + b) == words(a) + words(b),
    decreases a.len(),
{
    let all = a + seq![d] + b;
    if a.len() == 0 {
        assert(all[0] == d);
        assert(all.skip(1) =~= b);
        assert(words(a) + words(b) =~= words(b));
    } else if is_dash(a[0]) {
        lemma_words_around_dash(a.skip(1), d, b);
        assert(all[0] == a[0]);
        assert(all.skip(1) =~= a.skip(1) + seq![d] + b);
    } else {
        lemma_word_len(a);
        let n = word_len(a);
        assert forall|i: int| 0 <= i < n implies !is_dash(#[trigger] all[i]) by {
            assert(all[i] == a[i]);
        }
        assert(is_dash(all[n]));
        lemma_word_len_is(all, n);
        lemma_words_around_dash(a.skip(n), d, b);
        assert(all[0] == a[0]);
        assert(all.take(n) =~= a.take(n));
        assert(all.skip(n) =~= a.skip(n) + seq![d] + b);
        assert(words(all) =~= words(a) + words(b));
    }
}

proof fn lemma_words_behind_dashes(x: Seq<char>, b: Seq<char>)
    requires
        all_dashes(x),
    ensures
        words(x + b) == words(b),
    decreases x.len(),
{
    if x.len() == 0 {
        assert(x + b =~= b);
    } else {
        assert(is_dash(x[0]));
        assert forall|i: int| 0 <= i < x.skip(1).len() implies is_dash(
            #[trigger] x.skip(1)[i],
        ) by {
            assert(x.skip(1)[i] == x[i + 1]);
        }
        lemma_words_behind_dashes(x.skip(1), b);
        assert((x + b).skip(1) =~= x.skip(1) + b);
    }
}

proof fn lemma_words_around_dashes(a: Seq<char>, x: Seq<char>, b: Seq<char>)
    requires
        all_dashes(x),
        x.len() > 0,
    ensures
        words(a + x + b) == words(a) + words(b),
{
    assert(is_dash(x[0]));
    assert forall|i: int| 0 <= i < x.skip(1).len() implies is_dash(#[trigger] x.skip(1)[i]) by {
        assert(x.skip(1)[i] == x[i + 1]);
    }
    lemma_words_around_dash(a, x[0], x.skip(1) + b);
    lemma_words_behind_dashes(x.skip(1), b);
    assert(a + x + b =~= a + seq![x[0]] + (x.skip(1) + b));
}

/// It makes no difference how many separators part two words, or which.
pub proof fn lemma_number_of_separators(
    a: Seq<char>,
    x: Seq<char>,
    y: Seq<char>,
    b: Seq<char>,
)
    requires
        all_dashes(x),
        all_dashes(y),
        x.len() > 0,
        y.len() > 0,
    ensures
        slug_title(a + x + b) == slug_title(a + y + b),
{
    lemma_words_around_dashes(a, x, b);
    lemma_words_around_dashes(a, y, b);
}

/// Separators at the start and at the end make no difference.
pub proof fn lemma_outer_separators(x: Seq<char>, slug: Seq<char>, y: Seq<char>)
    requires
        all_dashes(x),
        all_dashes(y),
    ensures
        slug_title(x + slug + y) == slug_title(slug),
{
    let inner = slug + y;
    lemma_words_behind_dashes(x, inner);
    assert(x + slug + y =~= x + inner);
    if y.len() > 0 {
        lemma_words_around_dashes(slug, y, seq![]);
        assert(slug + y + seq![] =~= inner);
        assert(words(slug) + words(seq![]) =~= words(slug));
    } else {
        assert(inner =~= slug);
    }
}

/// A slug with every underscore turned into a dash.
pub open spec fn dashed(slug: Seq<char>) -> Seq<char> {
    slug.map_values(|c: char| if c == '_' { '-' } else { c })
}

proof fn lemma_words_of_dashed(s: Seq<char>)
    ensures
        words(dashed(s)) == words(s),
    decreases s.len(),
{
    let t = dashed(s);
    if s.len() > 0 {
        if is_dash(s[0]) {
            lemma_words_of_dashed(s.skip(1));
            assert(is_dash(t[0]));
            assert(t.skip(1) =~= dashed(s.skip(1)));
        } else {
            lemma_word_len(s);
            let n = word_len(s);
            assert forall|i: int| 0 <= i < n implies !is_dash(#[trigger] t[i]) by {
                assert(!is_dash(s[i]));
            }
            lemma_word_len_is(t, n);
            lemma_words_of_dashed(s.skip(n));
            assert(t.take(n) =~= s.take(n)) by {
                assert forall|i: int| 0 <= i < n implies t[i] == s[i] by {
                    assert(!is_dash(s[i]));
                }
            }
            assert(t.skip(n) =~= dashed(s.skip(n)));
        }
    }
}

/// Dashes and underscores part words alike.
pub proof fn lemma_kind_of_separator(slug: Seq<char>)
    ensures
        slug_title(dashed(slug)) == slug_title(slug),
{
    lemma_words_of_dashed(slug);
}

/// Words that a title can be made of.
spec fn are_words(ws: Seq<Seq<char>>) -> bool {
    forall|k: int|
        0 <= k < ws.len() ==> (#[trigger] ws[k]).len() > 0 && has_no_dash(ws[k]) && all_ascii(ws[k])
}

proof fn lemma_words_are_words(s: Seq<char>)
    requires
        all_ascii(s),
    ensures
        are_words(words(s)),
    decreases s.len(),
{
    if s.len() > 0 {
        if is_dash(s[0]) {
            assert(all_ascii(s.skip(1)));
            lemma_words_are_words(s.skip(1));
        } else {
            lemma_word_len(s);
            let n = word_len(s);
            let rest = s.skip(n);
            assert(all_ascii(rest));
            lemma_words_are_words(rest);
            let ws = words(s);
            assert(ws[0] == s.take(n));
            assert(has_no_dash(s.take(n)) && all_ascii(s.take(n)));
            assert forall|k: int| 0 <= k < ws.len() implies (#[trigger] ws[k]).len() > 0
                && has_no_dash(ws[k]) && all_ascii(ws[k]) by {
                if k > 0 {
                    assert(ws[k] == words(rest)[k - 1]);
                }
            }
        }
    }
}

/// Whether `title` is `text` with nothing changed but letters that begin it or follow a space, and
/// these to upper case.
pub open spec fn only_initials_change(text: Seq<char>, title: Seq<char>) -> bool {
    &&& title.len() == text.len()
    &&& forall|i: int|
        #![trigger title[i]]
        0 <= i < text.len() ==> title[i] == text[i] || (title[i] == ascii_upper(text[i]) && (i == 0
            || text[i - 1] == ' '))
}

proof fn lemma_title_of_words(ws: Seq<Seq<char>>)
    requires
        are_words(ws),
    ensures
        only_initials_change(joined(ws, ' '), joined(all_capitalized(ws), ' ')),
        has_no_dash(joined(all_capitalized(ws), ' ')),
        all_ascii(joined(all_capitalized(ws), ' ')),
        joined(ws, ' ').len() > 0 ==> joined(all_capitalized(ws), ' ')[0] == ascii_upper(
            joined(ws, ' ')[0],
        ),
        ws.len() > 0 ==> joined(ws, ' ').len() > 0,
    decreases ws.len(),
{
    let text = joined(ws, ' ');
    let caps = all_capitalized(ws);
    let title = joined(caps, ' ');
    if ws.len() > 0 {
        let word = ws[ws.len() - 1];
        let cap = capitalized(word);
        assert(word.len() > 0 && has_no_dash(word) && all_ascii(word));
        assert(caps[ws.len() - 1] == cap);
        assert(word[0] as u32 <= 0x7f);
        assert(cap =~= word.update(0, ascii_upper(word[0])));
        assert forall|i: int| 0 <= i < cap.len() implies !is_dash(#[trigger] cap[i]) && cap[i] as u32
            <= 0x7f by {
            assert(!is_dash(word[i]) && word[i] as u32 <= 0x7f);
        }
        if ws.len() > 1 {
            let front = ws.drop_last();
            assert(are_words(front)) by {
                assert forall|k: int| 0 <= k < front.len() implies (#[trigger] front[k]).len() > 0
                    && has_no_dash(front[k]) && all_ascii(front[k]) by {
                    assert(front[k] == ws[k]);
                }
            }
            lemma_title_of_words(front);
            assert(caps.drop_last() =~= all_capitalized(front));
            let a = joined(front, ' ');
            let b = joined(all_capitalized(front), ' ');
            let n = a.len() as int;
            assert(text == a + seq![' '] + word);
            assert(title == b + seq![' '] + cap);
            assert forall|i: int|
                #![trigger title[i]]
                0 <= i < text.len() implies (title[i] == text[i] || (title[i] == ascii_upper(text[i])
                && (i == 0 || text[i - 1] == ' '))) && !is_dash(title[i]) && title[i] as u32
                <= 0x7f by {
                if i < n {
                    assert(title[i] == b[i]);
                    assert(text[i] == a[i]);
                } else if i > n {
                    assert(title[i] == cap[i - n - 1]);
                    assert(text[i] == word[i - n - 1]);
                }
            }
        } else {
            assert(text == word);
            assert(title == cap);
        }
    }
}

/// A title holds no separators, and is the words of its slug with nothing changed but their
/// initials.
pub proof fn lemma_title_of_slug(slug: Seq<char>)
    requires
        all_ascii(slug),
    ensures
        has_no_dash(slug_title(slug)),
        only_initials_change(joined(words(slug), ' '), slug_title(slug)),
{
    lemma_words_are_words(slug);
    lemma_title_of_words(words(slug));
}

/// The title of a title is that title.
pub proof fn lemma_title_of_title(slug: Seq<char>)
    requires
        all_ascii(slug),
    ensures
        slug_title(slug_title(slug)) == slug_title(slug),
{
    let title = slug_title(slug);
    lemma_words_are_words(slug);
    lemma_title_of_words(words(slug));
    if title.len() > 0 {
        let c = joined(words(slug), ' ')[0];
        let n = title.len() as int;
        lemma_word_len_is(title, n);
        assert(!is_dash(title[0]));
        assert(title.take(n) =~= title);
        assert(title.skip(n) =~= seq![]);
        assert(words(title.skip(n)) =~= seq![]);
        assert(words(title) =~= seq![title]);
        assert(title[0] == ascii_upper(c));
        assert(title[0] as u32 <= 0x7f);
        assert(ascii_upper(title[0]) == title[0]);
        assert(capitalized(title) =~= title);
        assert(all_capitalized(words(title)) =~= seq![title]);
    } else {
        assert(title =~= seq![]);
        assert(all_capitalized(words(title)) =~= seq![]);
    }
}

proof fn lemma_some_word(s: Seq<char>, k: int)
    requires
        0 <= k < s.len(),
        !is_dash(s[k]),
    ensures
        words(s).len() > 0,
    decreases s.len(),
{
    if is_dash(s[0]) {
        assert(s.skip(1)[k - 1] == s[k]);
        lemma_some_word(s.skip(1), k - 1);
    }
}

/// A dash or an underscore between two parts of a slug becomes a space between their titles.
pub proof fn lemma_separators_become_spaces(
    a: Seq<char>,
    i: int,
    d: char,
    b: Seq<char>,
    j: int,
)
    requires
        d == '-' || d == '_',
        0 <= i < a.len(),
        a[i] != '-',
        a[i] != '_',
        0 <= j < b.len(),
        b[j] != '-',
        b[j] != '_',
    ensures
        slug_title(a + seq![d] + b) == slug_title(a) + seq![' '] + slug_title(b),
{
    lemma_words_around_dash(a, d, b);
    lemma_some_word(a, i);
    lemma_some_word(b, j);
    let x = all_capitalized(words(a));
    let y = all_capitalized(words(b));
    assert(all_capitalized(words(a) + words(b)) =~= x + y);
    lemma_joining(x, y, seq![], ' ');
}

/// A word gets its first character in upper case and is kept for the rest.
pub proof fn lemma_title_of_word(word: Seq<char>)
    requires
        word.len() > 0,
        !word.contains('-'),
        !word.contains('_'),
    ensures
        slug_title(seq![]) == Seq::<char>::empty(),
        slug_title(word) == upper(word[0]) + word.skip(1),
        97 <= word[0] as u32 <= 122 ==> upper(word[0]).len() == 1 && upper(word[0])[0] as u32
            == word[0] as u32 - 32,
        word[0] as u32 <= 127 && !(97 <= word[0] as u32 <= 122) ==> upper(word[0]) == seq![word[0]],
{
    assert forall|i: int| 0 <= i < word.len() implies !is_dash(#[trigger] word[i]) by {
        assert(word.contains(word[i]));
    }
    let n = word.len() as int;
    lemma_word_len_is(word, n);
    assert(word.take(n) =~= word);
    assert(word.skip(n) =~= seq![]);
    assert(words(seq![]) =~= seq![]);
    assert(words(word) =~= seq![word]);
    assert(all_capitalized(seq![word]) =~= seq![capitalized(word)]);
    assert(all_capitalized(seq![]) =~= seq![]);
}

} // verus!
