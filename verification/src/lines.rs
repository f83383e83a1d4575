//! Text as lines: the pieces that end in a line feed, and their line endings.
use crate::text::{find_char, lemma_find_char, position_of, push_chars};
use vstd::prelude::*;
use vstd::slice::slice_subrange;

verus! {

/// The length of the first line of `s`, its line feed counted.
pub open spec fn line_len(s: Seq<char>) -> int {
    match find_char(s, 0, '\n') {
        Some(i) => i + 1,
        None => s.len() as int,
    }
}

/// The lines of `s`, each with the line ending that it has. Only the last one can lack it.
pub open spec fn pieces(s: Seq<char>) -> Seq<Seq<char>>
    decreases s.len(),
{
    if s.len() == 0 {
        seq![]
    } else {
        proof {
            lemma_find_char(s, 0, '\n');
        }
        let n = line_len(s);
        seq![s.take(n)] + pieces(s.skip(n))
    }
}

/// The number of characters in the line ending of `line`: a line feed, with or without a
/// carriage return before it.
pub open spec fn ending_len(line: Seq<char>) -> int {
    if line.len() == 0 || line.last() != '\n' {
        0
    } else if line.len() >= 2 && line[line.len() - 2] == '\r' {
        2
    } else {
        1
    }
}

/// A line without its line ending.
pub open spec fn line_body(line: Seq<char>) -> Seq<char> {
    line.take(line.len() - ending_len(line))
}

/// The line ending of a line.
pub open spec fn line_ending(line: Seq<char>) -> Seq<char> {
    line.skip(line.len() - ending_len(line))
}

/// The lines of `s` without their line endings.
pub open spec fn lines(s: Seq<char>) -> Seq<Seq<char>> {
    pieces(s).map_values(|l: Seq<char>| line_body(l))
}

/// The texts `ls`, with `sep` between each two.
pub open spec fn joined(ls: Seq<Seq<char>>, sep: char) -> Seq<char>
    decreases ls.len(),
{
    if ls.len() == 0 {
        seq![]
    } else if ls.len() == 1 {
        ls[0]
    } else {
        joined(ls.drop_last(), sep) + seq![sep] + ls.last()
    }
}

/// A text is the sequence of its lines.
pub proof fn lemma_pieces_make_text(s: Seq<char>)
    ensures
        pieces(s).flatten() == s,
    decreases s.len(),
{
    if s.len() == 0 {
        assert(s =~= seq![]);
    } else {
        lemma_find_char(s, 0, '\n');
        let n = line_len(s);
        lemma_pieces_make_text(s.skip(n));
        assert(pieces(s).first() == s.take(n));
        assert(pieces(s).drop_first() =~= pieces(s.skip(n)));
        assert(s.take(n) + s.skip(n) =~= s);
    }
}

/// The flattened first `i + 1` sequences are the first `i` and then the next one.
pub proof fn lemma_flatten_take(s: Seq<Seq<char>>, i: int)
    requires
        0 <= i < s.len(),
    ensures
        s.take(i + 1).flatten() == s.take(i).flatten() + s[i],
{
    s.take(i).lemma_flatten_push(s[i]);
    assert(s.take(i + 1) =~= s.take(i).push(s[i]));
}

/// The lines of `s`, each with its line ending.
pub fn pieces_of(s: &[char]) -> (out: Vec<&[char]>)
    ensures
        out@.len() == pieces(s@).len(),
        forall|i: int| 0 <= i < out@.len() ==> (#[trigger] out@[i])@ == pieces(s@)[i],
{
    let mut out: Vec<&[char]> = Vec::new();
    let mut at: usize = 0;
    assert(s@.skip(0) =~= s@);
    while at < s.len()
        invariant
            at <= s.len(),
            pieces(s@).len() == out@.len() + pieces(s@.skip(at as int)).len(),
            forall|i: int| 0 <= i < out@.len() ==> (#[trigger] out@[i])@ == pieces(s@)[i],
            forall|i: int|
                0 <= i < pieces(s@.skip(at as int)).len() ==> pieces(s@)[out@.len() + i]
                    == #[trigger] pieces(s@.skip(at as int))[i],
        decreases s.len() - at,
    {
        let ghost rest = s@.skip(at as int);
        let tail = slice_subrange(s, at, s.len());
        proof {
            lemma_find_char(rest, 0, '\n');
        }
        let n: usize = match position_of(tail, 0, '\n') {
            Some(i) => i + 1,
            None => tail.len(),
        };
        let ghost k = out@.len();
        out.push(slice_subrange(s, at, at + n));
        at += n;
        proof {
            assert(rest.skip(n as int) =~= s@.skip(at as int));
            assert(out@[k as int]@ =~= rest.take(n as int));
            assert(pieces(rest)[0] == rest.take(n as int));
            assert(pieces(s@)[k as int] == pieces(rest)[0]);
            assert forall|i: int| 0 <= i < pieces(s@.skip(at as int)).len() implies pieces(s@)[out@.len()
                + i] == #[trigger] pieces(s@.skip(at as int))[i] by {
                assert(pieces(rest)[i + 1] == pieces(s@.skip(at as int))[i]);
            }
        }
    }
    out
}

/// The length of `line` without its line ending.
pub fn body_len(line: &[char]) -> (n: usize)
    ensures
        n == line@.len() - ending_len(line@),
{
    let len = line.len();
    if len == 0 || line[len - 1] != '\n' {
        len
    } else if len >= 2 && line[len - 2] == '\r' {
        len - 2
    } else {
        len - 1
    }
}

/// A line without its line ending.
pub fn body_of(line: &[char]) -> (out: &[char])
    ensures
        out@ == line_body(line@),
{
    slice_subrange(line, 0, body_len(line))
}

/// The line ending of a line.
pub fn ending_of(line: &[char]) -> (out: &[char])
    ensures
        out@ == line_ending(line@),
{
    slice_subrange(line, body_len(line), line.len())
}

/// The lines of `s` without their line endings.
pub fn lines_of(s: &[char]) -> (out: Vec<&[char]>)
    ensures
        out@.len() == lines(s@).len(),
        forall|i: int| 0 <= i < out@.len() ==> (#[trigger] out@[i])@ == lines(s@)[i],
{
    let all = pieces_of(s);
    let mut out: Vec<&[char]> = Vec::new();
    let mut i: usize = 0;
    while i < all.len()
        invariant
            i <= all.len(),
            out@.len() == i,
            all@.len() == pieces(s@).len(),
            forall|j: int| 0 <= j < all@.len() ==> (#[trigger] all@[j])@ == pieces(s@)[j],
            forall|j: int| 0 <= j < out@.len() ==> (#[trigger] out@[j])@ == lines(s@)[j],
        decreases all.len() - i,
    {
        out.push(body_of(all[i]));
        i += 1;
    }
    out
}

/// Appends `item` to the texts in `out`, of which `first` says that there are none yet.
pub(crate) fn push_joined(
    out: &mut Vec<char>,
    first: bool,
    item: &[char],
    sep: char,
    Ghost(ls): Ghost<Seq<Seq<char>>>,
)
    requires
        old(out)@ == joined(ls, sep),
        first == (ls.len() == 0),
    ensures
        final(out)@ == joined(ls.push(item@), sep),
{
    if !first {
        out.push(sep);
    }
    push_chars(out, item);
    proof {
        let next = ls.push(item@);
        assert(next.drop_last() =~= ls);
        if ls.len() > 0 {
            assert(out@ =~= joined(ls, sep) + seq![sep] + item@);
        } else {
            assert(out@ =~= item@);
        }
    }
}

proof fn lemma_joined_front(ls: Seq<Seq<char>>, sep: char)
    requires
        ls.len() >= 2,
    ensures
        joined(ls, sep) == ls[0] + seq![sep] + joined(ls.skip(1), sep),
    decreases ls.len(),
{
    let front = ls.drop_last();
    let rest = ls.skip(1);
    if ls.len() == 2 {
        assert(front =~= seq![ls[0]] && rest =~= seq![ls[1]]);
        assert(joined(front, sep) == ls[0] && joined(rest, sep) == ls[1]);
        assert(joined(ls, sep) =~= ls[0] + seq![sep] + joined(rest, sep));
    } else {
        lemma_joined_front(front, sep);
        assert(front.skip(1) =~= rest.drop_last());
        assert(joined(ls, sep) =~= ls[0] + seq![sep] + joined(rest, sep));
    }
}

/// A text that can be a line: it holds no line feed and ends in no carriage return.
pub open spec fn is_line(line: Seq<char>) -> bool {
    !line.contains('\n') && (line.len() > 0 ==> line.last() != '\r')
}

/// Lines that are joined are found again, unless the last one is empty.
pub proof fn lemma_lines_of_joined(ls: Seq<Seq<char>>)
    requires
        forall|i: int| 0 <= i < ls.len() ==> is_line(#[trigger] ls[i]),
        ls.len() > 0 ==> ls.last().len() > 0,
    ensures
        lines(joined(ls, '\n')) == ls,
    decreases ls.len(),
{
    let s = joined(ls, '\n');
    lemma_find_char(s, 0, '\n');
    if ls.len() == 0 {
        assert(lines(s) =~= ls);
    } else if ls.len() == 1 {
        assert(is_line(ls[0]));
        assert(find_char(s, 0, '\n') is None) by {
            if let Some(i) = find_char(s, 0, '\n') {
                assert(s[i] == '\n');
            }
        }
        assert(s.skip(s.len() as int) =~= seq![]);
        assert(s.take(s.len() as int) =~= s);
        assert(line_body(s) =~= s) by {
            assert(s.contains(s[s.len() - 1]));
        }
        assert(pieces(s.skip(s.len() as int)) =~= seq![]);
        assert(pieces(s) =~= seq![s]);
        assert(lines(s) =~= ls);
    } else {
        let rest = ls.skip(1);
        let n = ls[0].len() as int;
        lemma_joined_front(ls, '\n');
        assert(is_line(ls[0]));
        assert(s[n] == '\n');
        assert forall|j: int| 0 <= j < n implies #[trigger] s[j] != '\n' by {
            assert(s[j] == ls[0][j]);
            assert(ls[0].contains(ls[0][j]));
        }
        assert(find_char(s, 0, '\n') == Some(n));
        assert(s.skip(n + 1) =~= joined(rest, '\n'));
        assert(s.take(n + 1) =~= ls[0].push('\n'));
        assert(line_body(ls[0].push('\n')) =~= ls[0]);
        assert forall|i: int| 0 <= i < rest.len() implies is_line(#[trigger] rest[i]) by {
            assert(rest[i] == ls[i + 1]);
        }
        lemma_lines_of_joined(rest);
        assert(pieces(s).skip(1) =~= pieces(s.skip(n + 1)));
        assert(lines(s) =~= seq![ls[0]] + lines(s.skip(n + 1)));
        assert(seq![ls[0]] + rest =~= ls);
    }
}

/// A text without carriage returns is its lines joined by line feeds, and a line feed at the end
/// where it has one.
pub proof fn lemma_joined_lines_make_text(s: Seq<char>)
    requires
        !s.contains('\r'),
    ensures
        forall|i: int| 0 <= i < lines(s).len() ==> is_line(#[trigger] lines(s)[i]),
        s == if s.len() > 0 && s.last() == '\n' {
            joined(lines(s), '\n').push('\n')
        } else {
            joined(lines(s), '\n')
        },
    decreases s.len(),
{
    if s.len() == 0 {
        assert(s =~= joined(lines(s), '\n'));
    } else {
        lemma_find_char(s, 0, '\n');
        let n = line_len(s);
        let rest = s.skip(n);
        let piece = s.take(n);
        assert(!rest.contains('\r')) by {
            if rest.contains('\r') {
                let k = choose|k: int| 0 <= k < rest.len() && rest[k] == '\r';
                assert(s[k + n] == '\r');
            }
        }
        lemma_joined_lines_make_text(rest);
        let ls = lines(s);
        assert(pieces(s).skip(1) =~= pieces(rest));
        assert(ls =~= seq![line_body(piece)] + lines(rest));
        assert(ls.skip(1) =~= lines(rest));
        assert(is_line(line_body(piece))) by {
            let body = line_body(piece);
            assert forall|k: int| 0 <= k < body.len() implies body[k] != '\n' && body[k]
                != '\r' by {
                assert(body[k] == s[k]);
                assert(s.contains(s[k]));
            }
        }
        assert forall|i: int| 0 <= i < ls.len() implies is_line(#[trigger] ls[i]) by {
            if i > 0 {
                assert(ls[i] == lines(rest)[i - 1]);
            }
        }
        match find_char(s, 0, '\n') {
            None => {
                assert(s[s.len() - 1] != '\n');
                assert(rest =~= seq![] && piece =~= s);
                assert(line_body(piece) =~= s);
                assert(lines(rest) =~= seq![]);
                assert(ls =~= seq![s]);
            },
            Some(i) => {
                assert(n > 1 ==> s[n - 2] != '\r') by {
                    if n > 1 {
                        assert(s.contains(s[n - 2]));
                    }
                }
                assert(line_body(piece) =~= s.take(i));
                assert(s =~= s.take(i) + seq!['\n'] + rest);
                if rest.len() == 0 {
                    assert(ls =~= seq![s.take(i)]);
                    assert(s =~= joined(ls, '\n').push('\n'));
                } else {
                    lemma_joined_front(ls, '\n');
                    assert(s.last() == rest.last());
                    assert(s =~= if s.last() == '\n' {
                        joined(ls, '\n').push('\n')
                    } else {
                        joined(ls, '\n')
                    });
                }
            },
        }
    }
}

/// A text that is one line: no line feed stands in it but at its end.
pub open spec fn is_piece(s: Seq<char>) -> bool {
    s.len() > 0 && forall|i: int| 0 <= i < s.len() - 1 ==> #[trigger] s[i] != '\n'
}

/// Whether a text ends where a line ends.
pub open spec fn ends_line(s: Seq<char>) -> bool {
    s.len() == 0 || s.last() == '\n'
}

/// A text that is one line has one piece.
pub proof fn lemma_one_piece(s: Seq<char>)
    requires
        is_piece(s),
    ensures
        pieces(s) == seq![s],
{
    lemma_find_char(s, 0, '\n');
    assert(line_len(s) == s.len());
    assert(s.take(s.len() as int) =~= s);
    assert(s.skip(s.len() as int) =~= seq![]);
    assert(pieces(s.skip(s.len() as int)) =~= seq![]);
    assert(pieces(s) =~= seq![s]);
}

/// The lines of a text that ends a line, and of the text behind it, are those of the two in a row.
pub proof fn lemma_pieces_of_both(a: Seq<char>, b: Seq<char>)
    requires
        ends_line(a),
    ensures
        pieces(a + b) == pieces(a) + pieces(b),
    decreases a.len(),
{
    if a.len() == 0 {
        assert(a + b =~= b);
        assert(pieces(a) + pieces(b) =~= pieces(b));
    } else {
        let all = a + b;
        lemma_find_char(a, 0, '\n');
        lemma_find_char(all, 0, '\n');
        assert(a[a.len() - 1] == '\n');
        let i = find_char(a, 0, '\n')->0;
        assert(find_char(a, 0, '\n') is Some);
        assert(all[i] == a[i]);
        assert(find_char(all, 0, '\n') is Some);
        let j = find_char(all, 0, '\n')->0;
        assert(j <= i);
        assert(all[j] == a[j]);
        assert(j == i);
        let rest = a.skip(i + 1);
        assert(rest.len() > 0 ==> rest.last() == a.last());
        lemma_pieces_of_both(rest, b);
        assert(all.skip(i + 1) =~= rest + b);
        assert(all.take(i + 1) =~= a.take(i + 1));
        assert(pieces(all) =~= pieces(a) + pieces(b));
    }
}

/// Each piece of a text is one line, and only the last one can lack a line feed.
pub proof fn lemma_pieces_are_lines(s: Seq<char>)
    ensures
        forall|i: int| 0 <= i < pieces(s).len() ==> is_piece(#[trigger] pieces(s)[i]),
        forall|i: int| 0 <= i < pieces(s).len() - 1 ==> (#[trigger] pieces(s)[i]).last() == '\n',
    decreases s.len(),
{
    if s.len() > 0 {
        lemma_find_char(s, 0, '\n');
        let n = line_len(s);
        let rest = s.skip(n);
        lemma_pieces_are_lines(rest);
        assert(pieces(s).len() == 1 + pieces(rest).len());
        assert(pieces(s)[0] == s.take(n));
        assert forall|i: int| 0 <= i < pieces(s).len() implies is_piece(
            #[trigger] pieces(s)[i],
        ) by {
            if i > 0 {
                assert(pieces(s)[i] == pieces(rest)[i - 1]);
            }
        }
        assert forall|i: int| 0 <= i < pieces(s).len() - 1 implies (#[trigger] pieces(
            s,
        )[i]).last() == '\n' by {
            if i > 0 {
                assert(pieces(s)[i] == pieces(rest)[i - 1]);
            } else {
                assert(rest.len() > 0);
            }
        }
    }
}

} // verus!
