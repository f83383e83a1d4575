//! What becomes of the links of a text, place by place and line by line.
use crate::links::{
    anchors_of, has_open_bracket, in_code, is_fence, is_live, is_md_target, lemma_step,
    line_targets, path_part, rewritten, rewritten_lines, step_end, step_text, target_end, targets,
};
use crate::text::{find_char, is_space, lemma_find_char, trim};
use crate::text_laws::lemma_parts_of_trimming;
use vstd::prelude::*;

verus! {

/// A target is a markdown file where it ends in `.md`, or a place in one where `.md#` stands in it.
pub proof fn lemma_markdown_targets(a: Seq<char>, b: Seq<char>, t: Seq<char>)
    ensures
        is_md_target(a + seq!['.', 'm', 'd']),
        is_md_target(a + seq!['.', 'm', 'd', '#'] + b),
        is_md_target(t) ==> {
            ||| t.len() >= 3 && t == t.take(t.len() - 3) + seq!['.', 'm', 'd']
            ||| exists|k: int|
                0 <= k && k + 4 <= t.len() && t[k] == '.' && #[trigger] t[k + 1] == 'm' && t[k + 2]
                    == 'd' && t[k + 3] == '#'
        },
{
    reveal_strlit(".md");
    reveal_strlit(".md#");
    let x = a + seq!['.', 'm', 'd'];
    assert(".md"@ =~= seq!['.', 'm', 'd']);
    assert(x.subrange(x.len() - 3, x.len() as int) =~= ".md"@);
    let y = a + seq!['.', 'm', 'd', '#'] + b;
    let n = a.len() as int;
    assert(y.subrange(n, n + ".md#"@.len()) =~= ".md#"@);
    if is_md_target(t) {
        if ".md"@.is_suffix_of(t) {
            assert(t =~= t.take(t.len() - 3) + seq!['.', 'm', 'd']);
        } else {
            let k = choose|k: int|
                0 <= k && k + ".md#"@.len() <= t.len() && ".md#"@ == #[trigger] t.subrange(
                    k,
                    k + ".md#"@.len(),
                );
            let s = t.subrange(k, k + 4);
            assert(s[0] == '.' && s[1] == 'm' && s[2] == 'd' && s[3] == '#');
            assert(t[k + 1] == 'm');
        }
    }
}

/// The path of a target is what stands before its first `#`.
pub proof fn lemma_path_of_target(path: Seq<char>, place: Seq<char>)
    requires
        !path.contains('#'),
        place.len() > 0 ==> place[0] == '#',
    ensures
        path_part(path + place) == path,
{
    let t = path + place;
    lemma_find_char(t, 0, '#');
    assert forall|i: int| 0 <= i < path.len() implies #[trigger] t[i] != '#' by {
        assert(path.contains(path[i]));
    }
    if place.len() > 0 {
        assert(t[path.len() as int] == '#');
        assert(find_char(t, 0, '#') == Some(path.len() as int));
        assert(t.take(path.len() as int) =~= path);
    } else {
        assert(find_char(t, 0, '#') is None);
        assert(t =~= path);
    }
}

/// A path leads to the place of the file that it resolves to, if that file has one.
pub proof fn lemma_places_of_paths(
    resolved: Map<Seq<char>, Seq<char>>,
    path_map: Map<Seq<char>, Seq<char>>,
    path: Seq<char>,
    file: Seq<char>,
    place: Seq<char>,
)
    ensures
        anchors_of(resolved.insert(path, file), path_map.insert(file, place)).contains_key(path),
        anchors_of(resolved.insert(path, file), path_map.insert(file, place))[path] == place,
        !anchors_of(resolved.remove(path), path_map).contains_key(path),
        !anchors_of(resolved.insert(path, file), path_map.remove(file)).contains_key(path),
{
}

/// Whether `line` holds neither a backtick nor the start of a target from the place `i` to `n`.
pub open spec fn is_plain(line: Seq<char>, i: int, n: int) -> bool {
    forall|k: int|
        i <= k < n ==> (#[trigger] line[k]) != '`' && !(line[k] == ']' && k + 1 < line.len()
            && line[k + 1] == '(')
}

/// Text that is neither code nor a link is kept.
pub proof fn lemma_plain_text_stays(
    line: Seq<char>,
    i: int,
    n: int,
    anchors: Map<Seq<char>, Seq<char>>,
)
    requires
        0 <= i <= n <= line.len(),
        is_plain(line, i, n),
    ensures
        rewritten(line, i, anchors) == line.subrange(i, n) + rewritten(line, n, anchors),
        line_targets(line, i) == line_targets(line, n),
    decreases n - i,
{
    if i < n {
        lemma_step(line, i);
        lemma_plain_text_stays(line, i + 1, n, anchors);
        assert(line[i] != '`');
        assert(step_end(line, i) == i + 1);
        assert(line.subrange(i, i + 1) + line.subrange(i + 1, n) =~= line.subrange(i, n));
        assert(rewritten(line, i, anchors) =~= line.subrange(i, n) + rewritten(line, n, anchors));
    } else {
        assert(line.subrange(i, n) =~= seq![]);
        assert(line.subrange(i, n) + rewritten(line, n, anchors) =~= rewritten(line, n, anchors));
    }
}

/// Code between backticks is kept, and so is all behind a backtick that nothing closes.
#[verifier::rlimit(40)]
pub proof fn lemma_code_spans_stay(
    p: Seq<char>,
    code: Seq<char>,
    s: Seq<char>,
    anchors: Map<Seq<char>, Seq<char>>,
)
    requires
        !code.contains('`'),
    ensures
        ({
            let span = seq!['`'] + code + seq!['`'];
            let line = p + span + s;
            let n = p.len() + span.len();
            &&& rewritten(line, p.len() as int, anchors) == span + rewritten(
                line,
                n as int,
                anchors,
            )
            &&& line_targets(line, p.len() as int) == line_targets(line, n as int)
        }),
        ({
            let open = seq!['`'] + code;
            &&& rewritten(p + open, p.len() as int, anchors) == open
            &&& line_targets(p + open, p.len() as int) == Seq::<Seq<char>>::empty()
        }),
{
    let i = p.len() as int;
    let span = seq!['`'] + code + seq!['`'];
    let line = p + span + s;
    let n = i + span.len();
    lemma_step(line, i);
    lemma_find_char(line, i + 1, '`');
    assert(line[n - 1] == '`');
    assert forall|k: int| i + 1 <= k < n - 1 implies #[trigger] line[k] != '`' by {
        assert(line[k] == code[k - i - 1]);
        assert(code.contains(code[k - i - 1]));
    }
    assert(find_char(line, i + 1, '`') == Some(n - 1));
    assert(line.subrange(i, n) =~= span);
    assert(step_text(line, i, anchors) == span);
    let open = seq!['`'] + code;
    let last = p + open;
    lemma_step(last, i);
    lemma_find_char(last, i + 1, '`');
    assert forall|k: int| i + 1 <= k < last.len() implies #[trigger] last[k] != '`' by {
        assert(last[k] == code[k - i - 1]);
        assert(code.contains(code[k - i - 1]));
    }
    assert(find_char(last, i + 1, '`') is None);
    assert(last.subrange(i, last.len() as int) =~= open);
    assert(rewritten(last, last.len() as int, anchors) =~= seq![]);
    assert(rewritten(last, i, anchors) =~= open);
    assert(line_targets(last, last.len() as int) =~= seq![]);
}

/// A target without spaces and closing parentheses.
pub open spec fn is_target(t: Seq<char>) -> bool {
    !t.contains(' ') && !t.contains(')')
}

proof fn lemma_target_ends(line: Seq<char>, from: int, e: int)
    requires
        0 <= from <= e <= line.len(),
        forall|k: int| from <= k < e ==> (#[trigger] line[k]) != ')' && line[k] != ' ',
        e < line.len() ==> line[e] == ')' || line[e] == ' ',
    ensures
        target_end(line, from) == if e < line.len() {
            Some(e)
        } else {
            None
        },
    decreases e - from,
{
    if from < e {
        assert(line[from] != ')' && line[from] != ' ');
        lemma_target_ends(line, from + 1, e);
    }
}

/// A link to a markdown file in the book leads to its place there, wherever the link stands behind
/// an opening bracket; any other link is kept.
#[verifier::rlimit(40)]
pub proof fn lemma_links_lead_into_the_book(
    p: Seq<char>,
    path: Seq<char>,
    place: Seq<char>,
    s: Seq<char>,
    anchors: Map<Seq<char>, Seq<char>>,
)
    requires
        p.contains('['),
        is_target(path + place),
        !path.contains('#'),
        place.len() > 0 ==> place[0] == '#',
    ensures
        ({
            let t = path + place;
            let link = seq![']', '('] + t + seq![')'];
            let line = p + link + s;
            let n = (p.len() + link.len()) as int;
            let rest = rewritten(line, n, anchors);
            &&& is_md_target(t) && anchors.contains_key(path) ==> rewritten(
                line,
                p.len() as int,
                anchors,
            ) == seq![']', '(', '#'] + anchors[path] + seq![')'] + rest
            &&& !is_md_target(t) || !anchors.contains_key(path) ==> rewritten(
                line,
                p.len() as int,
                anchors,
            ) == link + rest
            &&& line_targets(line, p.len() as int) == if is_md_target(t) {
                seq![path] + line_targets(line, n)
            } else {
                line_targets(line, n)
            }
        }),
{
    let t = path + place;
    let link = seq![']', '('] + t + seq![')'];
    let line = p + link + s;
    let i = p.len() as int;
    let n = i + link.len();
    reveal_strlit("](#");
    lemma_step(line, i);
    lemma_path_of_target(path, place);
    let j = choose|j: int| 0 <= j < p.len() && p[j] == '[';
    assert(line[j] == '[');
    assert(has_open_bracket(line, i));
    assert forall|k: int| i + 2 <= k < n - 1 implies (#[trigger] line[k]) != ')' && line[k]
        != ' ' by {
        assert(line[k] == t[k - i - 2]);
        assert(t.contains(t[k - i - 2]));
    }
    assert(line[n - 1] == ')');
    lemma_target_ends(line, i + 2, n - 1);
    assert(line.subrange(i + 2, n - 1) =~= t);
    assert(line.subrange(i, n) =~= link);
    assert("](#"@ =~= seq![']', '(', '#']);
    assert(line[i] == ']' && line[i + 1] == '(');
}

/// What looks like a link is none where a space stands in its target, where nothing closes its
/// target, or where no bracket was opened: it is kept.
#[verifier::rlimit(40)]
pub proof fn lemma_broken_links_stay(
    p: Seq<char>,
    t: Seq<char>,
    s: Seq<char>,
    anchors: Map<Seq<char>, Seq<char>>,
)
    requires
        is_target(t),
    ensures
        p.contains('[') ==> {
            let broken = seq![']', '('] + t + seq![' '];
            let line = p + broken + s;
            let n = (p.len() + broken.len()) as int;
            &&& rewritten(line, p.len() as int, anchors) == broken + rewritten(line, n, anchors)
            &&& line_targets(line, p.len() as int) == line_targets(line, n)
        },
        p.contains('[') ==> {
            let open = seq![']', '('] + t;
            &&& rewritten(p + open, p.len() as int, anchors) == open
            &&& line_targets(p + open, p.len() as int) == Seq::<Seq<char>>::empty()
        },
        !p.contains('[') ==> {
            let line = p + seq![']'] + s;
            let n = p.len() as int;
            &&& rewritten(line, n, anchors) == seq![']'] + rewritten(line, n + 1, anchors)
            &&& line_targets(line, n) == line_targets(line, n + 1)
        },
{
    let i = p.len() as int;
    if p.contains('[') {
        let j = choose|j: int| 0 <= j < p.len() && p[j] == '[';
        let broken = seq![']', '('] + t + seq![' '];
        let line = p + broken + s;
        let n = i + broken.len();
        assert(line[j] == '[');
        assert(has_open_bracket(line, i));
        lemma_step(line, i);
        assert forall|k: int| i + 2 <= k < n - 1 implies (#[trigger] line[k]) != ')' && line[k]
            != ' ' by {
            assert(line[k] == t[k - i - 2]);
            assert(t.contains(t[k - i - 2]));
        }
        assert(line[n - 1] == ' ');
        lemma_target_ends(line, i + 2, n - 1);
        assert(line.subrange(i, n) =~= broken);
        assert(line[i] == ']' && line[i + 1] == '(');
        let open = seq![']', '('] + t;
        let last = p + open;
        assert(last[j] == '[');
        assert(has_open_bracket(last, i));
        lemma_step(last, i);
        assert forall|k: int| i + 2 <= k < last.len() implies (#[trigger] last[k]) != ')' && last[k]
            != ' ' by {
            assert(last[k] == t[k - i - 2]);
            assert(t.contains(t[k - i - 2]));
        }
        lemma_target_ends(last, i + 2, last.len() as int);
        assert(last.subrange(i, last.len() as int) =~= open);
        assert(last[i] == ']' && last[i + 1] == '(');
        assert(rewritten(last, last.len() as int, anchors) =~= seq![]);
        assert(rewritten(last, i, anchors) =~= open);
        assert(line_targets(last, last.len() as int) =~= seq![]);
    } else {
        let line = p + seq![']'] + s;
        assert(!has_open_bracket(line, i)) by {
            if has_open_bracket(line, i) {
                let j = choose|j: int| 0 <= j < i && #[trigger] line[j] == '[';
                assert(p[j] == '[');
            }
        }
        lemma_step(line, i);
        assert(line[i] == ']');
        assert(line.subrange(i, i + 1) =~= seq![']']);
    }
}

/// A line that begins with three backticks, behind whitespace at most.
pub open spec fn has_fence(line: Seq<char>) -> bool {
    exists|k: int|
        0 <= k && k + 3 <= line.len() && #[trigger] line[k] == '`' && line[k + 1] == '`' && line[k
            + 2] == '`' && forall|j: int| 0 <= j < k ==> is_space(#[trigger] line[j])
}

/// Blocks of code are opened and closed by lines that begin with three backticks, and by no other.
pub proof fn lemma_fences(line: Seq<char>)
    ensures
        is_fence(line) <==> has_fence(line),
{
    let (a, b) = lemma_parts_of_trimming(line);
    let t = trim(line);
    let k = a.len() as int;
    reveal_strlit("```");
    assert("```"@ =~= seq!['`', '`', '`']);
    if is_fence(line) {
        assert(t.subrange(0, 3) == "```"@);
        assert(t.subrange(0, 3)[0] == '`' && t.subrange(0, 3)[1] == '`' && t.subrange(0, 3)[2]
            == '`');
        assert(line[k] == '`' && line[k + 1] == '`' && line[k + 2] == '`');
        assert forall|j: int| 0 <= j < k implies is_space(#[trigger] line[j]) by {
            assert(line[j] == a[j]);
        }
    }
    if has_fence(line) {
        let m = choose|m: int|
            0 <= m && m + 3 <= line.len() && #[trigger] line[m] == '`' && line[m + 1] == '`'
                && line[m + 2] == '`' && forall|j: int|
                0 <= j < m ==> is_space(#[trigger] line[j]);
        if m < k {
            assert(line[m] == a[m]);
            assert(is_space(a[m]));
        } else if m > k {
            assert(is_space(line[k]));
            if t.len() > 0 {
                assert(line[k] == t[0]);
            } else {
                assert(line[m] == b[m - k]);
            }
        }
        assert(m == k);
        assert(t.len() >= 3) by {
            if t.len() < 3 {
                let at = k + t.len();
                assert(line[at] == b[0]);
                assert(is_space(b[0]));
            }
        }
        assert(line[k] == t[0] && line[k + 1] == t[1] && line[k + 2] == t[2]);
        assert(t.subrange(0, 3) =~= "```"@);
    }
}

proof fn lemma_code_goes_on(a: Seq<Seq<char>>, b: Seq<Seq<char>>, j: int)
    requires
        0 <= j <= b.len(),
    ensures
        in_code(a + b, a.len() + j) == (in_code(a, a.len() as int) != in_code(b, j)),
    decreases j,
{
    let n = a.len() as int;
    if j == 0 {
        lemma_code_before(a, b, n);
    } else {
        lemma_code_goes_on(a, b, j - 1);
        assert((a + b)[n + j - 1] == b[j - 1]);
    }
}

proof fn lemma_code_before(a: Seq<Seq<char>>, b: Seq<Seq<char>>, i: int)
    requires
        0 <= i <= a.len(),
    ensures
        in_code(a + b, i) == in_code(a, i),
    decreases i,
{
    if i > 0 {
        lemma_code_before(a, b, i - 1);
        assert((a + b)[i - 1] == a[i - 1]);
    }
}

proof fn lemma_lines_in_a_row(
    a: Seq<Seq<char>>,
    b: Seq<Seq<char>>,
    anchors: Map<Seq<char>, Seq<char>>,
)
    requires
        !in_code(a, a.len() as int),
    ensures
        rewritten_lines(a + b, anchors) == rewritten_lines(a, anchors) + rewritten_lines(
            b,
            anchors,
        ),
        targets(a + b, (a.len() + b.len()) as int) == targets(a, a.len() as int) + targets(
            b,
            b.len() as int,
        ),
{
    let n = a.len() as int;
    let all = a + b;
    assert forall|i: int| 0 <= i < all.len() implies rewritten_lines(all, anchors)[i] == (
    rewritten_lines(a, anchors) + rewritten_lines(b, anchors))[i] by {
        if i < n {
            lemma_code_before(a, b, i);
            assert(all[i] == a[i]);
        } else {
            lemma_code_goes_on(a, b, i - n);
            assert(all[i] == b[i - n]);
        }
    }
    assert(rewritten_lines(all, anchors) =~= rewritten_lines(a, anchors) + rewritten_lines(
        b,
        anchors,
    ));
    lemma_targets_before(a, b, n);
    lemma_targets_go_on(a, b, b.len() as int);
}

proof fn lemma_targets_before(a: Seq<Seq<char>>, b: Seq<Seq<char>>, i: int)
    requires
        0 <= i <= a.len(),
    ensures
        targets(a + b, i) == targets(a, i),
    decreases i,
{
    if i > 0 {
        lemma_targets_before(a, b, i - 1);
        lemma_code_before(a, b, i - 1);
        assert((a + b)[i - 1] == a[i - 1]);
    }
}

proof fn lemma_targets_go_on(a: Seq<Seq<char>>, b: Seq<Seq<char>>, j: int)
    requires
        0 <= j <= b.len(),
        !in_code(a, a.len() as int),
    ensures
        targets(a + b, a.len() + j) == targets(a, a.len() as int) + targets(b, j),
    decreases j,
{
    let n = a.len() as int;
    if j == 0 {
        lemma_targets_before(a, b, n);
        assert(targets(a, n) + targets(b, 0) =~= targets(a, n));
    } else {
        lemma_targets_go_on(a, b, j - 1);
        lemma_code_goes_on(a, b, j - 1);
        assert((a + b)[n + j - 1] == b[j - 1]);
        assert(targets(a + b, n + j) =~= targets(a, n) + targets(b, j));
    }
}

/// The links of a line outside blocks of code are rewritten, whatever the line begins with, and
/// then those of the lines behind it.
pub proof fn lemma_lines_of_text(
    line: Seq<char>,
    rest: Seq<Seq<char>>,
    anchors: Map<Seq<char>, Seq<char>>,
)
    requires
        !has_fence(line),
    ensures
        rewritten_lines(seq![line] + rest, anchors) == seq![rewritten(line, 0, anchors)]
            + rewritten_lines(rest, anchors),
        targets(seq![line] + rest, 1 + rest.len() as int) == line_targets(line, 0) + targets(
            rest,
            rest.len() as int,
        ),
{
    let a = seq![line];
    lemma_fences(line);
    assert(!in_code(a, 0));
    assert(a[0] == line);
    assert(in_code(a, 1) == (in_code(a, 0) != is_fence(a[0])));
    lemma_lines_in_a_row(a, rest, anchors);
    assert(rewritten_lines(a, anchors) =~= seq![rewritten(line, 0, anchors)]);
    assert(targets(a, 0) =~= seq![]);
    assert(targets(a, 1) =~= line_targets(line, 0));
}

/// A block of code is kept, up to the fence that closes it or to the end.
#[verifier::rlimit(40)]
pub proof fn lemma_blocks_of_code_stay(
    first: Seq<char>,
    code: Seq<Seq<char>>,
    last: Seq<char>,
    rest: Seq<Seq<char>>,
    anchors: Map<Seq<char>, Seq<char>>,
)
    requires
        has_fence(first),
        has_fence(last),
        forall|i: int| 0 <= i < code.len() ==> !has_fence(#[trigger] code[i]),
    ensures
        ({
            let block = seq![first] + code + seq![last];
            let open = seq![first] + code;
            &&& rewritten_lines(block + rest, anchors) == block + rewritten_lines(rest, anchors)
            &&& targets(block + rest, (block.len() + rest.len()) as int) == targets(
                rest,
                rest.len() as int,
            )
            &&& rewritten_lines(open, anchors) == open
            &&& targets(open, open.len() as int) == Seq::<Seq<char>>::empty()
        }),
{
    let block = seq![first] + code + seq![last];
    let open = seq![first] + code;
    let n = open.len() as int;
    lemma_inside_block(first, code, seq![last], n);
    lemma_inside_block(first, code, seq![], n);
    lemma_fences(last);
    assert(block[n] == last);
    assert(in_code(block, n + 1) == (in_code(block, n) != is_fence(block[n])));
    assert(open + seq![] =~= open);
    lemma_lines_in_a_row(block, rest, anchors);
    assert forall|i: int| 0 <= i < block.len() implies rewritten_lines(block, anchors)[i]
        == block[i] by {
        if i < n {
            lemma_inside_block(first, code, seq![last], i);
            lemma_fences(first);
        }
    }
    assert(rewritten_lines(block, anchors) =~= block);
    assert forall|i: int| 0 <= i < open.len() implies rewritten_lines(open, anchors)[i]
        == open[i] by {
        lemma_inside_block(first, code, seq![], i);
        lemma_fences(first);
    }
    assert(rewritten_lines(open, anchors) =~= open);
    lemma_no_targets_inside(first, code, seq![last], n);
    lemma_no_targets_inside(first, code, seq![], n);
    assert(targets(block, n + 1) == targets(block, n));
    assert(targets(block, n + 1) + targets(rest, rest.len() as int) =~= targets(
        rest,
        rest.len() as int,
    ));
}

proof fn lemma_inside_block(
    first: Seq<char>,
    code: Seq<Seq<char>>,
    tail: Seq<Seq<char>>,
    i: int,
)
    requires
        has_fence(first),
        forall|k: int| 0 <= k < code.len() ==> !has_fence(#[trigger] code[k]),
        0 <= i <= code.len() + 1,
    ensures
        in_code(seq![first] + code + tail, i) == (i > 0),
    decreases i,
{
    let all = seq![first] + code + tail;
    if i > 0 {
        lemma_inside_block(first, code, tail, i - 1);
        if i == 1 {
            lemma_fences(first);
            assert(all[0] == first);
        } else {
            assert(all[i - 1] == code[i - 2]);
            lemma_fences(code[i - 2]);
        }
    }
}

proof fn lemma_no_targets_inside(
    first: Seq<char>,
    code: Seq<Seq<char>>,
    tail: Seq<Seq<char>>,
    i: int,
)
    requires
        has_fence(first),
        forall|k: int| 0 <= k < code.len() ==> !has_fence(#[trigger] code[k]),
        0 <= i <= code.len() + 1,
    ensures
        targets(seq![first] + code + tail, i) == Seq::<Seq<char>>::empty(),
    decreases i,
{
    let all = seq![first] + code + tail;
    if i > 0 {
        lemma_no_targets_inside(first, code, tail, i - 1);
        lemma_inside_block(first, code, tail, i - 1);
        lemma_fences(first);
        assert(all[0] == first);
        assert(!is_live(all, i - 1));
    }
}

/// In a line outside blocks of code, whatever it begins with, a link to a markdown file that has a
/// place in the book is turned into a link to that place, and what stands before and behind it is
/// kept where it holds no code and no other link.
#[verifier::rlimit(40)]
pub proof fn lemma_link_in_a_line(
    head: Seq<char>,
    path: Seq<char>,
    place: Seq<char>,
    tail: Seq<char>,
    resolved: Map<Seq<char>, Seq<char>>,
    path_map: Map<Seq<char>, Seq<char>>,
)
    requires
        ({
            let line = head + (seq![']', '('] + (path + place) + seq![')']) + tail;
            let n = head.len() + path.len() + place.len() + 3;
            &&& !has_fence(line)
            &&& is_plain(line, 0, head.len() as int)
            &&& is_plain(line, n as int, line.len() as int)
        }),
        head.contains('['),
        is_target(path + place),
        !path.contains('#'),
        path.len() >= 3,
        path[path.len() - 3] == '.',
        path[path.len() - 2] == 'm',
        path[path.len() - 1] == 'd',
        place.len() > 0 ==> place[0] == '#',
        resolved.contains_key(path),
        path_map.contains_key(resolved[path]),
    ensures
        ({
            let line = head + (seq![']', '('] + (path + place) + seq![')']) + tail;
            rewritten_lines(seq![line], anchors_of(resolved, path_map)) == seq![
                head + seq![']', '(', '#'] + path_map[resolved[path]] + seq![')'] + tail,
            ]
        }),
{
    let anchors = anchors_of(resolved, path_map);
    let t = path + place;
    let link = seq![']', '('] + t + seq![')'];
    let line = head + link + tail;
    let h = head.len() as int;
    let n = h + link.len();
    let len = line.len() as int;
    lemma_lines_of_text(line, seq![], anchors);
    assert(seq![line] + Seq::<Seq<char>>::empty() =~= seq![line]);
    assert(rewritten_lines(Seq::<Seq<char>>::empty(), anchors) =~= seq![]);
    lemma_plain_text_stays(line, 0, h, anchors);
    lemma_plain_text_stays(line, n, len, anchors);
    lemma_links_lead_into_the_book(head, path, place, tail, anchors);
    let front = path.take(path.len() - 3);
    if place.len() > 0 {
        lemma_markdown_targets(front, place.skip(1), t);
        assert(front + seq!['.', 'm', 'd', '#'] + place.skip(1) =~= t);
    } else {
        lemma_markdown_targets(front, seq![], t);
        assert(front + seq!['.', 'm', 'd'] =~= t);
    }
    assert(is_md_target(t));
    assert(line.subrange(0, h) =~= head);
    assert(line.subrange(n, len) =~= tail);
    assert(rewritten(line, len, anchors) =~= seq![]);
    assert(rewritten(line, n, anchors) =~= tail);
    assert(rewritten(line, 0, anchors) =~= head + seq![']', '(', '#'] + anchors[path] + seq![')']
        + tail);
    assert(seq![rewritten(line, 0, anchors)] + Seq::<Seq<char>>::empty() =~= seq![
        rewritten(line, 0, anchors),
    ]);
}

} // verus!
