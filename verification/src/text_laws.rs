//! What holds of every text that is searched, trimmed, or taken apart into lines.
use crate::lines::{
    ends_line, joined, lemma_one_piece, lemma_pieces_of_both, line_body, line_ending, lines, pieces,
};
use crate::text::{ascii_lowered, is_space, trim, trim_end, trim_start};
use vstd::prelude::*;

verus! {

/// A text of nothing but whitespace.
pub open spec fn is_blank(s: Seq<char>) -> bool {
    forall|i: int| 0 <= i < s.len() ==> is_space(#[trigger] s[i])
}

/// Of the ASCII characters the space and those from the tab to the carriage return are whitespace,
/// and no other.
pub proof fn lemma_ascii_whitespace(c: char)
    requires
        c as u32 <= 0x7f,
    ensures
        is_space(c) <==> c == ' ' || c == '\t' || c == '\n' || c == '\r' || c as u32 == 11 || c
            as u32 == 12,
{
}

/// Outside ASCII whitespace is what Unicode lists as such: next line, the spaces of a fixed width,
/// and the separators of lines and paragraphs.
pub proof fn lemma_wide_whitespace(c: char)
    requires
        c as u32 > 0x7f,
    ensures
        is_space(c) <==> {
            let n = c as u32;
            n == 0x85 || n == 0xa0 || n == 0x1680 || 0x2000 <= n <= 0x200a || n == 0x2028 || n
                == 0x2029 || n == 0x202f || n == 0x205f || n == 0x3000
        },
{
}

proof fn lemma_blank_start(a: Seq<char>, s: Seq<char>)
    requires
        is_blank(a),
    ensures
        trim_start(a + s) == trim_start(s),
    decreases a.len(),
{
    if a.len() == 0 {
        assert(a + s =~= s);
    } else {
        let rest = a.skip(1);
        assert(is_space(a[0]));
        assert forall|i: int| 0 <= i < rest.len() implies is_space(#[trigger] rest[i]) by {
            assert(rest[i] == a[i + 1]);
        }
        assert((a + s).skip(1) =~= rest + s);
        lemma_blank_start(rest, s);
    }
}

proof fn lemma_blank_end(s: Seq<char>, b: Seq<char>)
    requires
        is_blank(b),
    ensures
        trim_end(s + b) == trim_end(s),
    decreases b.len(),
{
    if b.len() == 0 {
        assert(s + b =~= s);
    } else {
        let rest = b.drop_last();
        assert(is_space(b[b.len() - 1]));
        assert forall|i: int| 0 <= i < rest.len() implies is_space(#[trigger] rest[i]) by {
            assert(rest[i] == b[i]);
        }
        assert((s + b).drop_last() =~= s + rest);
        lemma_blank_end(s, rest);
    }
}

/// Trimming leaves what stands between the whitespace at the two ends of a text.
pub proof fn lemma_trimming(a: Seq<char>, s: Seq<char>, b: Seq<char>)
    requires
        is_blank(a),
        is_blank(b),
        s.len() > 0 ==> !is_space(s[0]) && !is_space(s.last()),
    ensures
        trim(a + s + b) == s,
        s.len() > 0 ==> trim_start(a + s + b) == s + b,
{
    assert(a + s + b =~= a + (s + b));
    lemma_blank_start(a, s + b);
    if s.len() > 0 {
        assert((s + b)[0] == s[0]);
        lemma_blank_end(s, b);
    } else {
        assert(s + b =~= b);
        let none = Seq::<char>::empty();
        lemma_blank_start(b, none);
        assert(b + none =~= b);
        assert(s =~= none);
    }
}

/// Every text is whitespace, a text that neither begins nor ends with any, and whitespace again.
pub proof fn lemma_parts_of_trimming(s: Seq<char>) -> (r: (Seq<char>, Seq<char>))
    ensures
        is_blank(r.0),
        is_blank(r.1),
        s == r.0 + trim(s) + r.1,
        trim(s).len() > 0 ==> !is_space(trim(s)[0]) && !is_space(trim(s).last()),
    decreases s.len(),
{
    if s.len() > 0 && is_space(s[0]) {
        let r = lemma_parts_of_trimming(s.skip(1));
        let a = seq![s[0]] + r.0;
        assert forall|i: int| 0 <= i < a.len() implies is_space(#[trigger] a[i]) by {
            if i > 0 {
                assert(a[i] == r.0[i - 1]);
            }
        }
        assert(trim(s) == trim(s.skip(1)));
        assert(s =~= a + trim(s) + r.1) by {
            assert(s =~= seq![s[0]] + s.skip(1));
        }
        (a, r.1)
    } else {
        let b = lemma_end_of_trimming(s);
        let none = Seq::<char>::empty();
        assert(none + trim(s) + b =~= trim_end(s) + b);
        if trim(s).len() > 0 {
            assert(trim(s)[0] == s[0]);
        }
        (none, b)
    }
}

proof fn lemma_end_of_trimming(s: Seq<char>) -> (b: Seq<char>)
    ensures
        is_blank(b),
        s == trim_end(s) + b,
        trim_end(s).len() > 0 ==> !is_space(trim_end(s).last()),
    decreases s.len(),
{
    if s.len() > 0 && is_space(s.last()) {
        let b = lemma_end_of_trimming(s.drop_last());
        let out = b.push(s.last());
        assert forall|i: int| 0 <= i < out.len() implies is_space(#[trigger] out[i]) by {
            if i < b.len() {
                assert(out[i] == b[i]);
            }
        }
        assert(s =~= trim_end(s) + out) by {
            assert(s =~= s.drop_last().push(s.last()));
        }
        out
    } else {
        assert(s + Seq::<char>::empty() =~= s);
        Seq::empty()
    }
}

/// In lower case the capital letters of ASCII are the small ones, and nothing else changes.
pub proof fn lemma_lower_case(s: Seq<char>, i: int)
    requires
        0 <= i < s.len(),
    ensures
        ascii_lowered(s).len() == s.len(),
        65 <= s[i] as u32 <= 90 ==> ascii_lowered(s)[i] as u32 == s[i] as u32 + 32,
        !(65 <= s[i] as u32 <= 90) ==> ascii_lowered(s)[i] == s[i],
{
}

/// Two texts in lower case stand in a row as the texts do.
pub proof fn lemma_lower_case_of_both(a: Seq<char>, b: Seq<char>)
    ensures
        ascii_lowered(a + b) == ascii_lowered(a) + ascii_lowered(b),
{
    assert(ascii_lowered(a + b) =~= ascii_lowered(a) + ascii_lowered(b));
}

/// The lines of a text end at its line feeds; a carriage return before a line feed belongs to the
/// end of the line.
pub proof fn lemma_first_line(a: Seq<char>, b: Seq<char>)
    requires
        !a.contains('\n'),
    ensures
        lines(seq![]) == Seq::<Seq<char>>::empty(),
        a.len() > 0 ==> lines(a) == seq![a],
        a.len() == 0 || a.last() != '\r' ==> lines(a + seq!['\n'] + b) == seq![a] + lines(b),
        lines(a + seq!['\r', '\n'] + b) == seq![a] + lines(b),
{
    assert(lines(seq![]) =~= seq![]);
    assert forall|i: int| 0 <= i < a.len() implies #[trigger] a[i] != '\n' by {
        assert(a.contains(a[i]));
    }
    if a.len() > 0 {
        lemma_one_piece(a);
        assert(line_body(a) =~= a);
        assert(lines(a) =~= seq![a]);
    }
    let x = a + seq!['\n'];
    let y = a + seq!['\r', '\n'];
    assert(x + b =~= a + seq!['\n'] + b);
    lemma_one_piece(x);
    lemma_one_piece(y);
    lemma_pieces_of_both(x, b);
    lemma_pieces_of_both(y, b);
    if a.len() == 0 || a.last() != '\r' {
        assert(line_body(x) =~= a);
        assert(lines(x + b) =~= seq![a] + lines(b));
    }
    assert(line_body(y) =~= a);
    assert(lines(y + b) =~= seq![a] + lines(b));
}

/// The pieces of a text are cut behind its line feeds.
pub proof fn lemma_first_piece(a: Seq<char>, b: Seq<char>)
    requires
        !a.contains('\n'),
    ensures
        pieces(seq![]) == Seq::<Seq<char>>::empty(),
        a.len() > 0 ==> pieces(a) == seq![a],
        pieces(a + seq!['\n'] + b) == seq![a + seq!['\n']] + pieces(b),
{
    assert(pieces(seq![]) =~= seq![]);
    assert forall|i: int| 0 <= i < a.len() implies #[trigger] a[i] != '\n' by {
        assert(a.contains(a[i]));
    }
    if a.len() > 0 {
        lemma_one_piece(a);
    }
    let x = a + seq!['\n'];
    lemma_one_piece(x);
    assert(ends_line(x));
    lemma_pieces_of_both(x, b);
}

/// A line is its body and its ending, which is a line feed, a carriage return and a line feed, or
/// nothing.
pub proof fn lemma_line_endings(a: Seq<char>)
    requires
        !a.contains('\n'),
    ensures
        line_body(a) == a,
        line_ending(a) == Seq::<char>::empty(),
        line_body(a + seq!['\r', '\n']) == a,
        line_ending(a + seq!['\r', '\n']) == seq!['\r', '\n'],
        a.len() == 0 || a.last() != '\r' ==> line_body(a + seq!['\n']) == a && line_ending(
            a + seq!['\n'],
        ) == seq!['\n'],
{
    assert(a.len() > 0 ==> a.contains(a.last()));
    let x = a + seq!['\n'];
    let y = a + seq!['\r', '\n'];
    assert(line_body(a) =~= a && line_ending(a) =~= seq![]);
    assert(line_body(y) =~= a && line_ending(y) =~= seq!['\r', '\n']);
    if a.len() == 0 || a.last() != '\r' {
        assert(line_body(x) =~= a && line_ending(x) =~= seq!['\n']);
    }
}

/// Joined texts stand in a row with one separator between each two.
pub proof fn lemma_joining(a: Seq<Seq<char>>, b: Seq<Seq<char>>, x: Seq<char>, sep: char)
    ensures
        joined(seq![], sep) == Seq::<char>::empty(),
        joined(seq![x], sep) == x,
        a.len() > 0 && b.len() > 0 ==> joined(a + b, sep) == joined(a, sep) + seq![sep] + joined(
            b,
            sep,
        ),
    decreases b.len(),
{
    if a.len() > 0 && b.len() > 0 {
        let front = b.drop_last();
        assert((a + b).drop_last() =~= a + front);
        if b.len() == 1 {
            assert(a + front =~= a);
            assert(joined(a + b, sep) =~= joined(a, sep) + seq![sep] + joined(b, sep));
        } else {
            lemma_joining(a, front, x, sep);
            assert(joined(a + b, sep) =~= joined(a, sep) + seq![sep] + joined(b, sep));
        }
    }
}

} // verus!
