//! Paths as text, and the parts of path handling that differ between operating systems.
//!
//! A path is held as its text. How a path is split and joined depends on the operating system
//! that the library is built for, so the functions that ask for it state two results: the one
//! where slashes alone part components, and the one on Windows, where backslashes part them too
//! and a path can begin with a drive or a share. Less is stated of verbatim paths on Windows.
use crate::text::{is_part_of, to_chars, to_text};
use vstd::prelude::*;
use vstd::slice::slice_subrange;

verus! {

/// A character that separates path components on some operating system.
pub open spec fn is_separator(c: char) -> bool {
    c == '/' || c == '\\'
}

/// A path that begins with two separators, as network shares do.
pub open spec fn is_share(p: Seq<char>) -> bool {
    p.len() >= 2 && is_separator(p[0]) && is_separator(p[1])
}

/// A path that begins with two separators and a question mark, as verbatim paths do on Windows.
pub open spec fn is_verbatim(p: Seq<char>) -> bool {
    is_share(p) && p.len() > 2 && p[2] == '?'
}

/// The place of the first separator of `p` at `from` or behind it, or the end of `p`.
pub open spec fn separator_from(p: Seq<char>, from: int) -> int
    decreases p.len() - from,
{
    if from >= p.len() {
        p.len() as int
    } else if is_separator(p[from]) {
        from
    } else {
        separator_from(p, from + 1)
    }
}

/// The length of the drive that `p` begins with on Windows: a letter and a colon, or nothing.
pub open spec fn drive_len(p: Seq<char>) -> int {
    if p.len() >= 2 && p[1] == ':' && ('a' <= p[0] <= 'z' || 'A' <= p[0] <= 'Z') {
        2
    } else {
        0
    }
}

/// The length of the share that `p` begins with on Windows: two separators, the name of a server,
/// a separator and the name of a share, or a device behind two separators and a dot. Where one of
/// the names is missing, there is none.
pub open spec fn share_len(p: Seq<char>) -> int {
    let server = separator_from(p, 2);
    let share = separator_from(p, server + 1);
    if !is_share(p) {
        0
    } else if p.len() > 3 && p[2] == '.' && is_separator(p[3]) {
        separator_from(p, 4)
    } else if server == 2 || server >= p.len() || share == server + 1 {
        0
    } else {
        share
    }
}

/// The length of the drive or the share that `p` begins with on Windows.
pub open spec fn prefix_len(p: Seq<char>) -> int {
    if is_share(p) {
        share_len(p)
    } else {
        drive_len(p)
    }
}

/// `text` with every backslash turned into a slash.
pub open spec fn slashed(text: Seq<char>) -> Seq<char> {
    text.map_values(|c: char| if c == '\\' { '/' } else { c })
}

/// `dir` and then `path`, with a slash between them where `dir` does not end in one.
pub open spec fn plain_join(dir: Seq<char>, path: Seq<char>) -> Seq<char> {
    if dir.len() == 0 || dir.last() == '/' {
        dir + path
    } else {
        dir + seq!['/'] + path
    }
}

/// `path` joined to the directory `dir` where slashes alone part components: a path that begins
/// with a slash stands for itself.
pub open spec fn slash_join(dir: Seq<char>, path: Seq<char>) -> Seq<char> {
    if path.len() > 0 && path[0] == '/' {
        path
    } else {
        plain_join(dir, path)
    }
}

/// `path` joined to the directory `dir` on Windows: a path with a drive or a share stands for
/// itself, one that begins with a separator stands behind the drive or the share of `dir`, and any
/// other path behind `dir` and a backslash. A drive alone, and a directory that ends in a
/// separator, need none.
pub open spec fn windows_join(dir: Seq<char>, path: Seq<char>) -> Seq<char> {
    if prefix_len(path) > 0 {
        path
    } else if path.len() > 0 && is_separator(path[0]) {
        dir.take(prefix_len(dir)) + path
    } else if dir.len() == 0 || is_separator(dir.last()) || dir.len() == drive_len(dir) {
        dir + path
    } else {
        dir + seq!['\\'] + path
    }
}

/// `path` joined to the directory `dir`, on Windows or elsewhere.
pub open spec fn joined_on(dir: Seq<char>, path: Seq<char>, windows: bool) -> Seq<char> {
    if windows {
        windows_join(dir, path)
    } else {
        slash_join(dir, path)
    }
}

/// Whether `path` is absolute, on Windows or elsewhere: it begins with a slash; on Windows, with a
/// share, or with a drive and a separator.
pub open spec fn is_absolute_on(path: Seq<char>, windows: bool) -> bool {
    if !windows {
        path.len() > 0 && path[0] == '/'
    } else if is_share(path) {
        share_len(path) > 0
    } else {
        drive_len(path) > 0 && path.len() > 2 && is_separator(path[2])
    }
}

/// Whether every character of `joined` is one of `dir` or `path`, or a separator.
pub open spec fn is_made_of(dir: Seq<char>, path: Seq<char>, joined: Seq<char>) -> bool {
    forall|i: int|
        0 <= i < joined.len() ==> is_separator(#[trigger] joined[i]) || dir.contains(joined[i])
            || path.contains(joined[i])
}

/// Whether `joined` is the text of `path` joined to the directory `dir`, on one system or another.
/// Less is said of verbatim paths on Windows.
pub open spec fn is_joined(dir: Seq<char>, path: Seq<char>, joined: Seq<char>) -> bool {
    ||| joined == slash_join(dir, path)
    ||| if is_verbatim(dir) && prefix_len(path) == 0 {
        is_made_of(dir, path, joined)
    } else if is_verbatim(path) {
        joined == path || joined == dir.take(prefix_len(dir)) + path
    } else {
        joined == windows_join(dir, path)
    }
}

/// `std::path::Path::is_absolute`: whether the operating system reads the path as absolute.
/// Claimed: where slashes alone part components, it does so if the path begins with one; on
/// Windows, if the path begins with a share, or with a drive and then a separator. Of verbatim
/// paths nothing is claimed on Windows, where not every path that looks like one is one.
#[verifier::external_body]
pub(crate) fn path_is_absolute(path: &str) -> (b: bool)
    ensures
        is_verbatim(path@) || b == is_absolute_on(path@, false) || b == is_absolute_on(path@, true),
{
    std::path::Path::new(path).is_absolute()
}

/// `std::path::Path::join`: the text of `path` joined to `dir`. Claimed: where slashes alone part
/// components, a path that begins with a slash stands for itself, and any other one behind `dir`
/// and a slash; on Windows, a path with a drive or a share stands for itself, one that begins with
/// a separator behind the drive or the share of `dir`, and any other one behind `dir` and a
/// separator. Where `dir` is a verbatim path on Windows, its text may be normalised, and all that
/// is claimed of a path without a drive or a share is that no characters but separators are added.
#[verifier::external_body]
pub(crate) fn path_join(dir: &str, path: &str) -> (joined: String)
    ensures
        is_joined(dir@, path@, joined@),
{
    std::path::Path::new(dir).join(path).to_string_lossy().to_string()
}

/// Whether `c` parts the components of a path, on Windows or elsewhere.
pub open spec fn splits(c: char, windows: bool) -> bool {
    c == '/' || (windows && c == '\\')
}

/// The length of what stands before the first named component of `p`: a drive or a share, and a
/// separator or a dot that is a component of its own.
pub open spec fn head_len(p: Seq<char>, windows: bool) -> int {
    let d = if windows {
        prefix_len(p)
    } else {
        0
    };
    if p.len() > d && (splits(p[d], windows) || p[d] == '.' && (p.len() == d + 1 || splits(
        p[d + 1],
        windows,
    ))) {
        d + 1
    } else {
        d
    }
}

/// The place at which the component begins that ends at the place `n` of `p`.
pub open spec fn component_start(p: Seq<char>, windows: bool, n: int) -> int
    decreases n,
{
    if n <= 0 || n <= head_len(p, windows) || splits(p[n - 1], windows) {
        n
    } else {
        component_start(p, windows, n - 1)
    }
}

/// A component begins where it ends or before.
pub proof fn lemma_component_start(p: Seq<char>, windows: bool, n: int)
    requires
        0 <= n,
    ensures
        0 <= component_start(p, windows, n) <= n,
        n > head_len(p, windows) && n > 0 && !splits(p[n - 1], windows) ==> component_start(
            p,
            windows,
            n,
        ) < n,
    decreases n,
{
    if n > 0 && n > head_len(p, windows) && !splits(p[n - 1], windows) {
        lemma_component_start(p, windows, n - 1);
    }
}

/// The place at which the last component of the first `n` characters of `p` ends: separators, and
/// components that are a single dot, are left out behind it.
pub open spec fn body_end(p: Seq<char>, windows: bool, n: int) -> int
    decreases n,
{
    if n <= 0 || n <= head_len(p, windows) {
        n
    } else if splits(p[n - 1], windows) {
        body_end(p, windows, n - 1)
    } else {
        let c = component_start(p, windows, n);
        if p.subrange(c, n) == seq!['.'] {
            proof {
                lemma_component_start(p, windows, n);
            }
            body_end(p, windows, c)
        } else {
            n
        }
    }
}

/// The name of the file or directory that `p` leads to: its last component. Two dots name nothing,
/// and neither does a path without components.
pub open spec fn name_in(p: Seq<char>, windows: bool) -> Option<Seq<char>> {
    let n = body_end(p, windows, p.len() as int);
    let name = p.subrange(component_start(p, windows, n), n);
    if n <= head_len(p, windows) || name == seq!['.', '.'] {
        None
    } else {
        Some(name)
    }
}

/// `p` without its last component, and without what parts it from the one before. The parent of a
/// single dot is empty; a root, a drive, a share and the empty path have none.
pub open spec fn parent_in(p: Seq<char>, windows: bool) -> Option<Seq<char>> {
    let n = body_end(p, windows, p.len() as int);
    if n > head_len(p, windows) {
        Some(p.take(body_end(p, windows, component_start(p, windows, n))))
    } else if p.len() > 0 && p[0] == '.' {
        Some(seq![])
    } else {
        None
    }
}

/// Whether `name` is the name of the file or directory that `path` leads to, on one system or
/// another.
pub open spec fn is_file_name_of(path: Seq<char>, name: Option<Seq<char>>) -> bool {
    ||| name == name_in(path, false)
    ||| if is_verbatim(path) {
        name matches Some(n) ==> n.len() > 0 && is_part_of(n, path)
    } else {
        name == name_in(path, true)
    }
}

/// `std::path::Path::file_name`: the last component of the path, if it names something. Claimed:
/// separators and single dots at the end are passed over; the name is what stands behind the last
/// separator before them, and two dots are none. A slash is a separator everywhere, a backslash on
/// Windows, where a drive or a share is no part of a name. Of a verbatim path on Windows all that
/// is claimed is that a name is not empty and is part of the path's text.
#[verifier::external_body]
pub(crate) fn path_file_name(path: &str) -> (name: Option<String>)
    ensures
        is_file_name_of(path@, text_of(name)),
{
    std::path::Path::new(path).file_name().map(|n| n.to_string_lossy().to_string())
}

/// A path whose first component, behind a drive, is a single dot.
pub open spec fn is_drive_dot(p: Seq<char>) -> bool {
    drive_len(p) > 0 && p.len() > 2 && p[2] == '.' && (p.len() == 3 || is_separator(p[3]))
}

/// Whether `parent` is the directory of what `path` leads to, on one system or another.
pub open spec fn is_parent_of(path: Seq<char>, parent: Option<Seq<char>>) -> bool {
    ||| parent == parent_in(path, false)
    ||| if is_verbatim(path) || is_drive_dot(path) {
        parent matches Some(d) ==> d.len() < path.len() && d.is_prefix_of(path)
    } else {
        parent == parent_in(path, true)
    }
}

/// `std::path::Path::parent`: the path without its last component, if it has one. Claimed:
/// separators and single dots at the end are passed over, the last component before them is left
/// out, and so are the separators and single dots before it, but for a root, a drive, a share or a
/// dot that the path begins with. A slash is a separator everywhere, a backslash on Windows. Of a
/// verbatim path on Windows, and of a drive with a dot behind it, all that is claimed is that the
/// parent is a leading part of the path's text, and not all of it.
#[verifier::external_body]
pub(crate) fn path_parent(path: &str) -> (parent: Option<String>)
    ensures
        is_parent_of(path@, text_of(parent)),
{
    std::path::Path::new(path).parent().map(|p| p.to_string_lossy().to_string())
}

/// The view of an optional text.
pub open spec fn text_of(s: Option<String>) -> Option<Seq<char>> {
    match s {
        Some(s) => Some(s@),
        None => None,
    }
}

/// The views of a sequence of optional texts.
pub open spec fn texts_of(texts: Seq<Option<String>>) -> Seq<Option<Seq<char>>> {
    texts.map_values(|s: Option<String>| text_of(s))
}

/// The name of the file or directory that `path` leads to.
pub fn file_name(path: &str) -> (name: Option<String>)
    ensures
        is_file_name_of(path@, text_of(name)),
{
    path_file_name(path)
}

/// A text that may be missing, or nothing in its place.
pub open spec fn or_empty(text: Option<Seq<char>>) -> Seq<char> {
    match text {
        Some(t) => t,
        None => seq![],
    }
}

/// The directory of the file at `path`, or nothing where the path has none.
pub fn parent_dir(path: &str) -> (dir: String)
    ensures
        exists|parent: Option<Seq<char>>|
            is_parent_of(path@, parent) && dir@ == #[trigger] or_empty(parent),
{
    let parent = path_parent(path);
    let ghost view = text_of(parent);
    let dir = match parent {
        Some(p) => p,
        None => String::new(),
    };
    assert(dir@ =~= or_empty(view));
    dir
}

/// The directory `parent`, or `path` where there is none.
pub open spec fn dir_or(parent: Option<Seq<char>>, path: Seq<char>) -> Seq<char> {
    match parent {
        Some(dir) => dir,
        None => path,
    }
}

/// The path that `target` leads to from the document at `path`: it is joined to the directory of
/// the document, or to `path` itself where that has none.
pub fn link_path(path: &str, target: &str) -> (out: String)
    ensures
        exists|parent: Option<Seq<char>>|
            is_parent_of(path@, parent) && #[trigger] is_joined(
                dir_or(parent, path@),
                target@,
                out@,
            ),
{
    let parent = path_parent(path);
    let ghost view = text_of(parent);
    let out = match parent {
        Some(dir) => path_join(dir.as_str(), target),
        None => path_join(path, target),
    };
    assert(is_joined(dir_or(view, path@), target@, out@));
    out
}

/// The place of the last dot in `name`.
pub open spec fn last_dot(name: Seq<char>) -> Option<int>
    decreases name.len(),
{
    if name.len() == 0 {
        None
    } else if name.last() == '.' {
        Some(name.len() - 1)
    } else {
        last_dot(name.drop_last())
    }
}

/// A file name without its extension: the part before the last dot. A dot that the name begins
/// with starts no extension.
pub open spec fn stem(name: Seq<char>) -> Seq<char> {
    match last_dot(name) {
        Some(i) => if i == 0 {
            name
        } else {
            name.take(i)
        },
        None => name,
    }
}

/// A file name without its extension.
pub fn stem_of(name: &str) -> (out: String)
    ensures
        out@ == stem(name@),
{
    let chars = to_chars(name);
    let mut i: usize = chars.len();
    assert(name@.take(name@.len() as int) =~= name@);
    while i > 0 && chars[i - 1] != '.'
        invariant
            i <= chars.len(),
            chars@ == name@,
            last_dot(name@) == last_dot(name@.take(i as int)),
        decreases i,
    {
        assert(name@.take(i as int).drop_last() =~= name@.take(i - 1));
        i -= 1;
    }
    if i <= 1 {
        to_text(chars.as_slice())
    } else {
        to_text(slice_subrange(chars.as_slice(), 0, i - 1))
    }
}

/// A path that every operating system reads as relative to a directory.
pub open spec fn is_plain_relative(p: Seq<char>) -> bool {
    p.len() > 0 && !is_separator(p[0]) && !p.contains(':')
}

/// A directory to which every operating system joins a relative path with one separator at most.
pub open spec fn is_plain_dir(dir: Seq<char>) -> bool {
    !is_verbatim(dir) && (dir.len() > 0 ==> dir.last() != '\\' && dir.last() != ':')
}

/// An ordinary relative path stands behind an ordinary directory and a separator, on every system.
pub proof fn lemma_plain_join(dir: Seq<char>, path: Seq<char>, joined: Seq<char>)
    requires
        is_joined(dir, path, joined),
        is_plain_dir(dir),
        is_plain_relative(path),
    ensures
        slashed(joined) == slashed(plain_join(dir, path)),
{
    if drive_len(path) > 0 {
        assert(path.contains(path[1]));
    }
    assert(slashed(joined) =~= slashed(plain_join(dir, path)));
}

/// A path that begins with a slash does not depend on the directory that it is joined to, but for
/// its drive or its share.
pub proof fn lemma_rooted_join(dir: Seq<char>, path: Seq<char>, joined: Seq<char>)
    requires
        is_joined(dir, path, joined),
        !is_verbatim(dir),
        path.len() > 0,
        path[0] == '/',
    ensures
        joined == path || joined == dir.take(prefix_len(dir)) + path,
        prefix_len(dir) == 0 ==> joined == path,
{
    assert(dir.take(0) + path =~= path);
}

/// An absolute path does not depend on the directory that it is joined to, on each system.
pub proof fn lemma_absolute_join(dir: Seq<char>, path: Seq<char>, windows: bool)
    requires
        is_absolute_on(path, windows),
    ensures
        joined_on(dir, path, windows) == path,
{
}

/// A path joined to a directory is one of two texts.
pub proof fn lemma_joined_on_systems(dir: Seq<char>, path: Seq<char>, joined: Seq<char>)
    requires
        is_joined(dir, path, joined),
        !is_verbatim(dir),
        !is_verbatim(path),
    ensures
        joined == joined_on(dir, path, false) || joined == joined_on(dir, path, true),
{
}

/// What a path begins with lies within it.
pub proof fn lemma_prefix_len(p: Seq<char>)
    ensures
        0 <= prefix_len(p) <= p.len(),
{
    lemma_separator_from(p, 2);
    lemma_separator_from(p, 4);
    lemma_separator_from(p, separator_from(p, 2) + 1);
}

proof fn lemma_separator_from(p: Seq<char>, from: int)
    ensures
        separator_from(p, from) <= p.len(),
        from <= p.len() ==> from <= separator_from(p, from),
    decreases p.len() - from,
{
    if from < p.len() && !is_separator(p[from]) {
        lemma_separator_from(p, from + 1);
    }
}

/// No characters but separators are added by joining.
pub proof fn lemma_join_adds_separators(dir: Seq<char>, path: Seq<char>, joined: Seq<char>)
    requires
        is_joined(dir, path, joined),
    ensures
        is_made_of(dir, path, joined),
{
    lemma_prefix_len(dir);
    assert forall|i: int| 0 <= i < joined.len() implies is_separator(#[trigger] joined[i])
        || dir.contains(joined[i]) || path.contains(joined[i]) by {
        if joined == path {
            assert(path[i] == joined[i]);
        } else if !is_made_of(dir, path, joined) {
            let n = joined.len() - path.len();
            if i >= n {
                assert(joined[i] == path[i - n]);
            } else if i < dir.len() {
                assert(joined[i] == dir[i] || is_separator(joined[i]));
            }
        }
    }
}

/// The place behind the last slash of `p`.
pub open spec fn name_start(p: Seq<char>) -> int
    decreases p.len(),
{
    if p.len() == 0 || p.last() == '/' {
        p.len() as int
    } else {
        name_start(p.drop_last())
    }
}

proof fn lemma_name_start(p: Seq<char>)
    ensures
        0 <= name_start(p) <= p.len(),
        name_start(p) > 0 ==> p[name_start(p) - 1] == '/',
        forall|i: int| name_start(p) <= i < p.len() ==> #[trigger] p[i] != '/',
    decreases p.len(),
{
    if p.len() > 0 && p.last() != '/' {
        let front = p.drop_last();
        lemma_name_start(front);
        assert forall|i: int| name_start(p) <= i < p.len() implies #[trigger] p[i] != '/' by {
            if i < front.len() {
                assert(p[i] == front[i]);
            }
        }
    }
}

/// A path whose last component every operating system reads as a name: it holds no backslash, and
/// what stands behind its last slash is an ordinary name.
pub open spec fn has_plain_name(p: Seq<char>) -> bool {
    let name = p.skip(name_start(p));
    &&& !is_share(p)
    &&& !p.contains('\\')
    &&& name.len() > 0
    &&& !name.contains(':')
    &&& name != seq!['.']
    &&& name != seq!['.', '.']
}

proof fn lemma_component_starts_at(p: Seq<char>, windows: bool, at: int, n: int)
    requires
        0 <= at <= n <= p.len(),
        head_len(p, windows) <= at,
        at == 0 || at == head_len(p, windows) || p[at - 1] == '/',
        forall|i: int| at <= i < n ==> !splits(#[trigger] p[i], windows),
    ensures
        component_start(p, windows, n) == at,
    decreases n,
{
    if at < n {
        assert(!splits(p[n - 1], windows));
        lemma_component_starts_at(p, windows, at, n - 1);
    }
}

proof fn lemma_plain_component(p: Seq<char>, windows: bool)
    requires
        has_plain_name(p),
    ensures
        head_len(p, windows) <= name_start(p),
        body_end(p, windows, p.len() as int) == p.len(),
        component_start(p, windows, p.len() as int) == name_start(p),
{
    let at = name_start(p);
    let n = p.len() as int;
    let name = p.skip(at);
    lemma_name_start(p);
    assert forall|i: int| 0 <= i < n implies #[trigger] p[i] != '\\' by {
        assert(p.contains(p[i]));
    }
    assert forall|i: int| at <= i < n implies #[trigger] p[i] != ':' by {
        assert(name[i - at] == p[i]);
        assert(name.contains(p[i]));
    }
    let h = head_len(p, windows);
    if at < h {
        assert(p[at] == name[0]);
        if n == at + 1 {
            assert(name =~= seq!['.']);
        }
        assert(false);
    }
    lemma_component_starts_at(p, windows, at, n);
    assert(!splits(p[n - 1], windows));
    assert(p.subrange(at, n) =~= name);
}

/// The name in such a path is what stands behind its last slash, on every system.
pub proof fn lemma_plain_name(p: Seq<char>, name: Option<Seq<char>>)
    requires
        has_plain_name(p),
        is_file_name_of(p, name),
    ensures
        name == Some(p.skip(name_start(p))),
{
    lemma_plain_component(p, false);
    lemma_plain_component(p, true);
    lemma_name_start(p);
    assert(p.subrange(name_start(p), p.len() as int) =~= p.skip(name_start(p)));
}

/// A path with an ordinary name behind another one, and a slash between them.
pub open spec fn has_plain_parent(p: Seq<char>) -> bool {
    let dir = p.take(name_start(p) - 1);
    &&& has_plain_name(p)
    &&& name_start(p) > 0
    &&& has_plain_name(dir)
    &&& !is_drive_dot(p)
}

/// The directory in such a path is what stands before its last slash, and a name alone has the
/// empty directory, on every system.
pub proof fn lemma_plain_parent(p: Seq<char>, parent: Option<Seq<char>>)
    requires
        has_plain_name(p),
        is_parent_of(p, parent),
    ensures
        name_start(p) == 0 ==> parent == Some(Seq::<char>::empty()),
        has_plain_parent(p) ==> parent == Some(p.take(name_start(p) - 1)),
{
    let at = name_start(p);
    lemma_name_start(p);
    lemma_plain_component(p, false);
    lemma_plain_component(p, true);
    if at == 0 {
        assert(p.take(0) =~= seq![]);
        if is_drive_dot(p) {
            assert(p.skip(0) =~= p);
            assert(p.contains(p[1]));
        }
    } else if has_plain_parent(p) {
        lemma_end_of_plain_dir(p, false);
        lemma_end_of_plain_dir(p, true);
    }
}

proof fn lemma_end_of_plain_dir(p: Seq<char>, windows: bool)
    requires
        has_plain_parent(p),
    ensures
        body_end(p, windows, name_start(p)) == name_start(p) - 1,
{
    let at = name_start(p);
    let dir = p.take(at - 1);
    let from = name_start(dir);
    lemma_name_start(p);
    lemma_name_start(dir);
    lemma_plain_component(p, windows);
    lemma_plain_component(dir, windows);
    assert forall|i: int| 0 <= i < p.len() implies #[trigger] p[i] != '\\' by {
        assert(p.contains(p[i]));
    }
    assert(head_len(p, windows) == head_len(dir, windows)) by {
        let name = dir.skip(from);
        if dir.len() < 2 {
            assert(dir.len() == 1 && from == 0);
            assert(name =~= dir);
            assert(dir[0] == p[0]);
            assert(p[1] == '/');
            assert(dir[0] != '.') by {
                if dir[0] == '.' {
                    assert(name =~= seq!['.']);
                }
            }
        } else {
            assert(dir[0] == p[0] && dir[1] == p[1]);
            if drive_len(p) == 2 && dir.len() == 2 {
                assert(from == 0);
                assert(name[1] == ':');
                assert(name.contains(name[1]));
            }
            if dir.len() > 2 {
                assert(dir[2] == p[2]);
                if dir.len() > 3 {
                    assert(dir[3] == p[3]);
                } else {
                    assert(p[3] == '/');
                }
            } else {
                assert(p[2] == '/');
            }
        }
    }
    assert forall|i: int| from <= i < at - 1 implies !splits(#[trigger] p[i], windows) by {
        assert(dir[i] == p[i]);
    }
    if from > 0 {
        assert(dir[from - 1] == p[from - 1]);
    }
    lemma_component_starts_at(p, windows, from, at - 1);
    assert(p.subrange(from, at - 1) =~= dir.skip(from));
    assert(head_len(p, windows) < at - 1);
    assert(splits(p[at - 1], windows));
    assert(!splits(p[at - 2], windows));
    assert(body_end(p, windows, at - 1) == at - 1);
}

} // verus!
