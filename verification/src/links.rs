//! Links between documents: which ones a text holds, and how they become links inside the book.
use crate::lines::{joined, lines, lines_of, push_joined};
use crate::text::{
    contains_word, ends_with, find_char, is_part_of, lemma_find_char, position_of, push_chars,
    push_str, starts_with, text_views, to_chars, to_text, trim, trim_chars,
};
use vstd::prelude::*;
use vstd::slice::slice_subrange;

verus! {

/// A map from text to text.
pub struct TextMap {
    entries: Vec<(String, String)>,
}

/// The map that a list of entries stands for: of two entries with one key the later one counts.
pub open spec fn map_of(entries: Seq<(Seq<char>, Seq<char>)>) -> Map<Seq<char>, Seq<char>>
    decreases entries.len(),
{
    if entries.len() == 0 {
        Map::empty()
    } else {
        map_of(entries.drop_last()).insert(entries.last().0, entries.last().1)
    }
}

/// The views of a list of entries.
pub open spec fn entry_views(entries: Seq<(String, String)>) -> Seq<(Seq<char>, Seq<char>)> {
    Seq::new(entries.len(), |i: int| (entries[i].0@, entries[i].1@))
}

impl View for TextMap {
    type V = Map<Seq<char>, Seq<char>>;

    closed spec fn view(&self) -> Map<Seq<char>, Seq<char>> {
        map_of(entry_views(self.entries@))
    }
}

/// Whether two texts are the same.
pub(crate) fn same_text(a: &str, b: &str) -> (r: bool)
    ensures
        r == (a@ == b@),
{
    let x = to_chars(a);
    let y = to_chars(b);
    if x.len() != y.len() {
        return false;
    }
    let mut i: usize = 0;
    while i < x.len()
        invariant
            i <= x.len(),
            x.len() == y.len(),
            x@ == a@,
            y@ == b@,
            forall|j: int| 0 <= j < i ==> x@[j] == y@[j],
        decreases x.len() - i,
    {
        if x[i] != y[i] {
            return false;
        }
        i += 1;
    }
    assert(x@ =~= y@);
    true
}

impl TextMap {
    /// A map without entries.
    pub fn new() -> (map: Self)
        ensures
            map@ == Map::<Seq<char>, Seq<char>>::empty(),
    {
        let map = TextMap { entries: Vec::new() };
        assert(entry_views(map.entries@) =~= seq![]);
        map
    }

    /// Maps `key` to `value`, in place of what it was mapped to before.
    pub fn insert(&mut self, key: String, value: String)
        ensures
            final(self)@ == old(self)@.insert(key@, value@),
    {
        self.entries.push((key, value));
        proof {
            let all = entry_views(self.entries@);
            assert(all.drop_last() =~= entry_views(old(self).entries@));
        }
    }

    /// What `key` is mapped to.
    pub fn get(&self, key: &str) -> (value: Option<&str>)
        ensures
            match value {
                Some(v) => self@.contains_key(key@) && v@ == self@[key@],
                None => !self@.contains_key(key@),
            },
    {
        let ghost all = entry_views(self.entries@);
        let mut i: usize = self.entries.len();
        assert(all.take(all.len() as int) =~= all);
        while i > 0
            invariant
                i <= self.entries.len(),
                all == entry_views(self.entries@),
                self@.contains_key(key@) == map_of(all.take(i as int)).contains_key(key@),
                self@.contains_key(key@) ==> self@[key@] == map_of(all.take(i as int))[key@],
            decreases i,
        {
            assert(all.take(i as int).drop_last() =~= all.take(i - 1));
            i -= 1;
            if same_text(self.entries[i].0.as_str(), key) {
                return Some(self.entries[i].1.as_str());
            }
        }
        None
    }
}

/// A target that is a markdown file, or a place in one.
pub open spec fn is_md_target(target: Seq<char>) -> bool {
    ".md"@.is_suffix_of(target) || is_part_of(".md#"@, target)
}

/// The path of a target: what stands before its first `#`.
pub open spec fn path_part(target: Seq<char>) -> Seq<char> {
    match find_char(target, 0, '#') {
        Some(i) => target.take(i),
        None => target,
    }
}

/// The first place at or after `from` where the target of a link ends or breaks off: a closing
/// parenthesis or a space.
pub open spec fn target_end(line: Seq<char>, from: int) -> Option<int>
    decreases line.len() - from,
{
    if from >= line.len() {
        None
    } else if line[from] == ')' || line[from] == ' ' {
        Some(from)
    } else {
        target_end(line, from + 1)
    }
}

/// What `target_end` finds is ahead.
pub proof fn lemma_target_end(line: Seq<char>, from: int)
    requires
        0 <= from,
    ensures
        target_end(line, from) matches Some(e) ==> from <= e < line.len() && (line[e] == ')'
            || line[e] == ' '),
    decreases line.len() - from,
{
    if from < line.len() && line[from] != ')' && line[from] != ' ' {
        lemma_target_end(line, from + 1);
    }
}

/// Whether an opening bracket stands in `line` before the place `i`.
pub open spec fn has_open_bracket(line: Seq<char>, i: int) -> bool {
    exists|j: int| 0 <= j < i && #[trigger] line[j] == '['
}

/// Whether the end of a link text and the start of its target, `](`, stand at the place `i` of
/// `line`, somewhere behind an opening bracket.
pub open spec fn opens_target(line: Seq<char>, i: int) -> bool {
    line[i] == ']' && i + 1 < line.len() && line[i + 1] == '(' && has_open_bracket(line, i)
}

/// Whether a link `](target)` stands at the place `i` of `line`. Its target holds no space.
pub open spec fn is_link_at(line: Seq<char>, i: int) -> bool {
    opens_target(line, i) && (target_end(line, i + 2) matches Some(e) && line[e] == ')')
}

/// The place behind what stands at `i` in `line`: a span of code up to its closing backtick, a
/// link or what breaks off before it is one, or a single character.
pub open spec fn step_end(line: Seq<char>, i: int) -> int {
    if line[i] == '`' {
        match find_char(line, i + 1, '`') {
            Some(e) => e + 1,
            None => line.len() as int,
        }
    } else if opens_target(line, i) {
        match target_end(line, i + 2) {
            Some(e) => e + 1,
            None => line.len() as int,
        }
    } else {
        i + 1
    }
}

/// A step leads ahead, and a link has room for its target.
pub proof fn lemma_step(line: Seq<char>, i: int)
    requires
        0 <= i < line.len(),
    ensures
        i < step_end(line, i) <= line.len(),
        is_link_at(line, i) ==> i + 2 < step_end(line, i),
{
    lemma_find_char(line, i + 1, '`');
    lemma_target_end(line, i + 2);
}

/// The target of the link at `i`.
pub open spec fn target_at(line: Seq<char>, i: int) -> Seq<char> {
    line.subrange(i + 2, step_end(line, i) - 1)
}

/// What becomes of the text at `i`, where `anchors` maps the paths of targets to places in the
/// book: a link to a markdown file in the book leads to its place, and all else is kept.
pub open spec fn step_text(line: Seq<char>, i: int, anchors: Map<Seq<char>, Seq<char>>) -> Seq<char> {
    let target = target_at(line, i);
    if is_link_at(line, i) && is_md_target(target) && anchors.contains_key(path_part(target)) {
        "](#"@ + anchors[path_part(target)] + seq![')']
    } else {
        line.subrange(i, step_end(line, i))
    }
}

/// `line` from the place `i` on, with its links into the book rewritten.
pub open spec fn rewritten(line: Seq<char>, i: int, anchors: Map<Seq<char>, Seq<char>>) -> Seq<char>
    decreases line.len() - i,
    when 0 <= i
{
    if i >= line.len() {
        seq![]
    } else {
        proof {
            lemma_step(line, i);
        }
        step_text(line, i, anchors) + rewritten(line, step_end(line, i), anchors)
    }
}

/// The paths of the links to markdown files in `line` from the place `i` on.
pub open spec fn line_targets(line: Seq<char>, i: int) -> Seq<Seq<char>>
    decreases line.len() - i,
    when 0 <= i
{
    if i >= line.len() {
        seq![]
    } else {
        proof {
            lemma_step(line, i);
        }
        let rest = line_targets(line, step_end(line, i));
        if is_link_at(line, i) && is_md_target(target_at(line, i)) {
            seq![path_part(target_at(line, i))] + rest
        } else {
            rest
        }
    }
}

/// A line that opens or closes a block of code.
pub open spec fn is_fence(line: Seq<char>) -> bool {
    "```"@.is_prefix_of(trim(line))
}

/// Whether the line `i` stands behind a fence that opens a block of code and before the one that
/// closes it.
pub open spec fn in_code(ls: Seq<Seq<char>>, i: int) -> bool
    decreases i,
{
    if i <= 0 {
        false
    } else {
        in_code(ls, i - 1) != is_fence(ls[i - 1])
    }
}

/// Whether the links of line `i` are rewritten.
pub open spec fn is_live(ls: Seq<Seq<char>>, i: int) -> bool {
    !is_fence(ls[i]) && !in_code(ls, i)
}

/// `ls` with the links into the book rewritten, except in blocks of code.
pub open spec fn rewritten_lines(
    ls: Seq<Seq<char>>,
    anchors: Map<Seq<char>, Seq<char>>,
) -> Seq<Seq<char>> {
    Seq::new(
        ls.len(),
        |i: int|
            if is_live(ls, i) {
                rewritten(ls[i], 0, anchors)
            } else {
                ls[i]
            },
    )
}

/// The paths of the links to markdown files in the first `n` lines of `ls`.
pub open spec fn targets(ls: Seq<Seq<char>>, n: int) -> Seq<Seq<char>>
    decreases n,
{
    if n <= 0 {
        seq![]
    } else if is_live(ls, n - 1) {
        targets(ls, n - 1) + line_targets(ls[n - 1], 0)
    } else {
        targets(ls, n - 1)
    }
}

/// The places in the book of the paths that `resolved` maps to a file in `path_map`.
pub open spec fn anchors_of(
    resolved: Map<Seq<char>, Seq<char>>,
    path_map: Map<Seq<char>, Seq<char>>,
) -> Map<Seq<char>, Seq<char>> {
    Map::new(
        |p: Seq<char>| resolved.contains_key(p) && path_map.contains_key(resolved[p]),
        |p: Seq<char>| path_map[resolved[p]],
    )
}

/// A step through a line: the place behind it, and whether it is a link to a markdown file.
struct StepEnd {
    end: usize,
    md_link: bool,
}

fn step(line: &[char], i: usize, open: bool) -> (r: StepEnd)
    requires
        i < line@.len(),
        open == has_open_bracket(line@, i as int),
    ensures
        r.end == step_end(line@, i as int),
        i < r.end <= line@.len(),
        r.md_link == (is_link_at(line@, i as int) && is_md_target(target_at(line@, i as int))),
        r.md_link ==> i + 2 < r.end,
{
    proof {
        lemma_step(line@, i as int);
    }
    let len = line.len();
    if line[i] == '`' {
        let end = match position_of(line, i + 1, '`') {
            Some(e) => e + 1,
            None => len,
        };
        return StepEnd { end, md_link: false };
    }
    if !(line[i] == ']' && i + 1 < len && line[i + 1] == '(' && open) {
        return StepEnd { end: i + 1, md_link: false };
    }
    let mut e: usize = i + 2;
    while e < len && line[e] != ')' && line[e] != ' '
        invariant
            i + 2 <= e <= len,
            len == line@.len(),
            target_end(line@, i + 2) == target_end(line@, e as int),
        decreases len - e,
    {
        e += 1;
    }
    if e == len {
        return StepEnd { end: len, md_link: false };
    }
    let mut md_link = false;
    if line[e] == ')' {
        let target = slice_subrange(line, i + 2, e);
        md_link = ends_with(target, ".md") || contains_word(target, ".md#");
    }
    StepEnd { end: e + 1, md_link }
}

fn path_of_target(target: &[char]) -> (out: &[char])
    ensures
        out@ == path_part(target@),
{
    match position_of(target, 0, '#') {
        Some(i) => slice_subrange(target, 0, i),
        None => target,
    }
}

/// Whether an opening bracket stands before the place `n`, where `open` says whether one stands
/// before `i`.
fn open_after(line: &[char], i: usize, n: usize, open: bool) -> (r: bool)
    requires
        i <= n <= line@.len(),
        open == has_open_bracket(line@, i as int),
    ensures
        r == has_open_bracket(line@, n as int),
{
    let mut r = open;
    let mut k: usize = i;
    while k < n
        invariant
            i <= k <= n <= line@.len(),
            r == has_open_bracket(line@, k as int),
        decreases n - k,
    {
        if line[k] == '[' {
            r = true;
            assert(line@[k as int] == '[');
        }
        proof {
            if has_open_bracket(line@, k + 1) && line@[k as int] != '[' {
                let j = choose|j: int| 0 <= j < k + 1 && #[trigger] line@[j] == '[';
                assert(0 <= j < k);
            }
        }
        k += 1;
    }
    r
}

fn push_rewritten(out: &mut Vec<char>, line: &[char], resolved: &TextMap, path_map: &TextMap)
    ensures
        final(out)@ == old(out)@ + rewritten(line@, 0, anchors_of(resolved@, path_map@)),
{
    let ghost anchors = anchors_of(resolved@, path_map@);
    let mut open = false;
    let mut i: usize = 0;
    assert(out@ + rewritten(line@, 0, anchors) =~= old(out)@ + rewritten(line@, 0, anchors));
    while i < line.len()
        invariant
            i <= line@.len(),
            open == has_open_bracket(line@, i as int),
            anchors == anchors_of(resolved@, path_map@),
            out@ + rewritten(line@, i as int, anchors) == old(out)@ + rewritten(line@, 0, anchors),
        decreases line@.len() - i,
    {
        let ghost before = out@;
        let next = step(line, i, open);
        let mut anchor: Option<&str> = None;
        if next.md_link {
            let path = to_text(path_of_target(slice_subrange(line, i + 2, next.end - 1)));
            anchor = match resolved.get(path.as_str()) {
                Some(file) => path_map.get(file),
                None => None,
            };
        }
        match anchor {
            Some(a) => {
                push_str(out, "](#");
                push_str(out, a);
                out.push(')');
                assert(out@ =~= before + step_text(line@, i as int, anchors));
            },
            None => {
                push_chars(out, slice_subrange(line, i, next.end));
                assert(out@ =~= before + step_text(line@, i as int, anchors));
            },
        }
        open = open_after(line, i, next.end, open);
        assert(out@ + rewritten(line@, next.end as int, anchors) =~= before + rewritten(
            line@,
            i as int,
            anchors,
        ));
        i = next.end;
    }
    assert(out@ + rewritten(line@, i as int, anchors) =~= out@);
}

/// `content` with its links to markdown files in the book turned into links to their places. The
/// map `resolved` leads from the path of a link, as it is written, to the file that it means, and
/// `path_map` from files to their places. Links that do not lead into the book, and all code, are
/// kept.
pub fn rewrite_md_links(content: &str, resolved: &TextMap, path_map: &TextMap) -> (out: String)
    ensures
        out@ == joined(
            rewritten_lines(lines(content@), anchors_of(resolved@, path_map@)),
            '\n',
        ),
{
    let chars = to_chars(content);
    let ls = lines_of(chars.as_slice());
    let ghost all = lines(content@);
    let ghost goal = rewritten_lines(all, anchors_of(resolved@, path_map@));
    let mut out: Vec<char> = Vec::new();
    let mut code = false;
    let mut i: usize = 0;
    while i < ls.len()
        invariant
            i <= ls.len(),
            ls@.len() == all.len(),
            forall|j: int| 0 <= j < ls@.len() ==> (#[trigger] ls@[j])@ == all[j],
            goal == rewritten_lines(all, anchors_of(resolved@, path_map@)),
            code == in_code(all, i as int),
            out@ == joined(goal.take(i as int), '\n'),
        decreases ls.len() - i,
    {
        let line = ls[i];
        let fence = starts_with(trim_chars(line), "```");
        let mut text: Vec<char> = Vec::new();
        if fence || code {
            push_chars(&mut text, line);
        } else {
            push_rewritten(&mut text, line, resolved, path_map);
        }
        proof {
            assert(text@ =~= goal[i as int]);
            assert(goal.take(i + 1) =~= goal.take(i as int).push(goal[i as int]));
        }
        push_joined(&mut out, i == 0, text.as_slice(), '\n', Ghost(goal.take(i as int)));
        if fence {
            code = !code;
        }
        i += 1;
    }
    assert(goal.take(goal.len() as int) =~= goal);
    to_text(out.as_slice())
}

fn push_targets(out: &mut Vec<String>, line: &[char])
    ensures
        text_views(final(out)@) == text_views(old(out)@) + line_targets(line@, 0),
{
    let mut open = false;
    let mut i: usize = 0;
    while i < line.len()
        invariant
            i <= line@.len(),
            open == has_open_bracket(line@, i as int),
            text_views(out@) + line_targets(line@, i as int) == text_views(old(out)@)
                + line_targets(line@, 0),
        decreases line@.len() - i,
    {
        let ghost before = text_views(out@);
        let next = step(line, i, open);
        if next.md_link {
            let path = path_of_target(slice_subrange(line, i + 2, next.end - 1));
            out.push(to_text(path));
            proof {
                assert(text_views(out@) =~= before.push(path_part(target_at(line@, i as int))));
            }
        }
        open = open_after(line, i, next.end, open);
        assert(text_views(out@) + line_targets(line@, next.end as int) =~= before + line_targets(
            line@,
            i as int,
        ));
        i = next.end;
    }
    assert(text_views(out@) + line_targets(line@, i as int) =~= text_views(out@));
}

/// The paths of the links to markdown files in `content`, as they are written, in order.
pub fn md_link_targets(content: &str) -> (out: Vec<String>)
    ensures
        text_views(out@) == targets(lines(content@), lines(content@).len() as int),
{
    let chars = to_chars(content);
    let ls = lines_of(chars.as_slice());
    let ghost all = lines(content@);
    let mut out: Vec<String> = Vec::new();
    let mut code = false;
    let mut i: usize = 0;
    assert(text_views(out@) =~= targets(all, 0));
    while i < ls.len()
        invariant
            i <= ls.len(),
            ls@.len() == all.len(),
            forall|j: int| 0 <= j < ls@.len() ==> (#[trigger] ls@[j])@ == all[j],
            code == in_code(all, i as int),
            text_views(out@) == targets(all, i as int),
        decreases ls.len() - i,
    {
        let line = ls[i];
        if starts_with(trim_chars(line), "```") {
            code = !code;
        } else if !code {
            push_targets(&mut out, line);
        }
        i += 1;
    }
    out
}

/// Where no link leads into the book, every line is kept.
pub proof fn lemma_unresolved_links_stay(ls: Seq<Seq<char>>)
    ensures
        rewritten_lines(ls, Map::empty()) == ls,
{
    let none = Map::<Seq<char>, Seq<char>>::empty();
    assert forall|i: int| 0 <= i < ls.len() implies rewritten_lines(ls, none)[i] == ls[i] by {
        lemma_unresolved_line_stays(ls[i], 0);
        assert(ls[i].skip(0) =~= ls[i]);
    }
    assert(rewritten_lines(ls, none) =~= ls);
}

proof fn lemma_unresolved_line_stays(line: Seq<char>, i: int)
    requires
        0 <= i <= line.len(),
    ensures
        rewritten(line, i, Map::empty()) == line.skip(i),
    decreases line.len() - i,
{
    if i < line.len() {
        lemma_step(line, i);
        lemma_unresolved_line_stays(line, step_end(line, i));
        assert(line.subrange(i, step_end(line, i)) + line.skip(step_end(line, i)) =~= line.skip(i));
    } else {
        assert(line.skip(i) =~= seq![]);
    }
}

/// Blocks of code are never touched, whatever leads into the book.
pub proof fn lemma_code_is_kept(ls: Seq<Seq<char>>, i: int, anchors: Map<Seq<char>, Seq<char>>)
    requires
        0 <= i < ls.len(),
        in_code(ls, i) || is_fence(ls[i]),
    ensures
        rewritten_lines(ls, anchors)[i] == ls[i],
{
}

/// The result depends on nothing but the places of the targets that `md_link_targets` lists.
pub proof fn lemma_targets_decide(
    ls: Seq<Seq<char>>,
    a: Map<Seq<char>, Seq<char>>,
    b: Map<Seq<char>, Seq<char>>,
)
    requires
        agree_on(targets(ls, ls.len() as int), a, b),
    ensures
        rewritten_lines(ls, a) == rewritten_lines(ls, b),
{
    assert forall|i: int| 0 <= i < ls.len() implies rewritten_lines(ls, a)[i] == rewritten_lines(
        ls,
        b,
    )[i] by {
        if is_live(ls, i) {
            lemma_targets_hold(ls, i, ls.len() as int);
            assert(agree_on(line_targets(ls[i], 0), a, b)) by {
                assert forall|k: int| 0 <= k < line_targets(ls[i], 0).len() implies same_place(
                    #[trigger] line_targets(ls[i], 0)[k],
                    a,
                    b,
                ) by {
                    let all = targets(ls, ls.len() as int);
                    assert(all.contains(line_targets(ls[i], 0)[k]));
                    let m = choose|m: int| 0 <= m < all.len() && all[m] == line_targets(
                        ls[i],
                        0,
                    )[k];
                    assert(same_place(all[m], a, b));
                }
            }
            lemma_line_targets_decide(ls[i], 0, a, b);
        }
    }
    assert(rewritten_lines(ls, a) =~= rewritten_lines(ls, b));
}

/// Whether two maps have the same place for `path`, or both none.
pub open spec fn same_place(
    path: Seq<char>,
    a: Map<Seq<char>, Seq<char>>,
    b: Map<Seq<char>, Seq<char>>,
) -> bool {
    a.contains_key(path) == b.contains_key(path) && (a.contains_key(path) ==> a[path] == b[path])
}

/// Whether two maps have the same places for all of `paths`.
pub open spec fn agree_on(
    paths: Seq<Seq<char>>,
    a: Map<Seq<char>, Seq<char>>,
    b: Map<Seq<char>, Seq<char>>,
) -> bool {
    forall|k: int| 0 <= k < paths.len() ==> same_place(#[trigger] paths[k], a, b)
}

proof fn lemma_targets_hold(ls: Seq<Seq<char>>, i: int, n: int)
    requires
        0 <= i < n <= ls.len(),
        is_live(ls, i),
    ensures
        forall|k: int|
            0 <= k < line_targets(ls[i], 0).len() ==> targets(ls, n).contains(
                #[trigger] line_targets(ls[i], 0)[k],
            ),
    decreases n,
{
    let here = line_targets(ls[i], 0);
    if i < n - 1 {
        lemma_targets_hold(ls, i, n - 1);
        let front = targets(ls, n - 1);
        assert forall|k: int| 0 <= k < here.len() implies targets(ls, n).contains(
            #[trigger] here[k],
        ) by {
            let m = choose|m: int| 0 <= m < front.len() && front[m] == here[k];
            assert(targets(ls, n)[m] == here[k]);
        }
    } else {
        let front = targets(ls, n - 1);
        assert forall|k: int| 0 <= k < here.len() implies targets(ls, n).contains(
            #[trigger] here[k],
        ) by {
            assert(targets(ls, n)[front.len() + k] == here[k]);
        }
    }
}

proof fn lemma_line_targets_decide(
    line: Seq<char>,
    i: int,
    a: Map<Seq<char>, Seq<char>>,
    b: Map<Seq<char>, Seq<char>>,
)
    requires
        0 <= i <= line.len(),
        agree_on(line_targets(line, i), a, b),
    ensures
        rewritten(line, i, a) == rewritten(line, i, b),
    decreases line.len() - i,
{
    if i < line.len() {
        lemma_step(line, i);
        let n = step_end(line, i);
        let here = line_targets(line, i);
        let rest = line_targets(line, n);
        let link = is_link_at(line, i) && is_md_target(target_at(line, i));
        assert forall|k: int| 0 <= k < rest.len() implies same_place(#[trigger] rest[k], a, b) by {
            if link {
                assert(here[k + 1] == rest[k]);
            } else {
                assert(here[k] == rest[k]);
            }
        }
        if link {
            assert(here[0] == path_part(target_at(line, i)));
            assert(same_place(here[0], a, b));
        }
        lemma_line_targets_decide(line, n, a, b);
    }
}

} // verus!
