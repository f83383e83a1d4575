//! What paths lead to, on every system or on each of the two kinds.
use crate::book::is_book_text;
use crate::documents::is_shown_text;
use crate::paths::{
    has_plain_name, has_plain_parent, is_absolute_on, is_drive_dot, is_file_name_of,
    is_joined, is_parent_of, is_plain_dir, is_share, joined_on,
    lemma_plain_join, lemma_plain_name, lemma_plain_parent, name_start, or_empty, plain_join,
    prefix_len, separator_from, slashed,
};
use crate::printing::{are_bundled, are_bundled_in, is_bundled};
use crate::reader::is_view_of;
use vstd::prelude::*;

verus! {

/// An ordinary file name: no separator and no colon stands in it, and it is neither one dot nor
/// two.
pub open spec fn is_name(name: Seq<char>) -> bool {
    &&& name.len() > 0
    &&& !name.contains('/')
    &&& !name.contains('\\')
    &&& !name.contains(':')
    &&& name != seq!['.']
    &&& name != seq!['.', '.']
}

proof fn lemma_start_of_name(dir: Seq<char>, name: Seq<char>)
    requires
        !name.contains('/'),
    ensures
        name_start(dir + seq!['/'] + name) == dir.len() + 1,
        name_start(name) == 0,
    decreases name.len(),
{
    let p = dir + seq!['/'] + name;
    if name.len() == 0 {
        assert(p.last() == '/');
    } else {
        let front = name.drop_last();
        assert(name.contains(name.last()));
        assert(p.last() == name.last());
        assert(p.drop_last() =~= dir + seq!['/'] + front);
        assert(!front.contains('/')) by {
            if front.contains('/') {
                let k = choose|k: int| 0 <= k < front.len() && front[k] == '/';
                assert(name[k] == '/');
            }
        }
        lemma_start_of_name(dir, front);
    }
}

proof fn lemma_plain_path(dir: Seq<char>, name: Seq<char>)
    requires
        is_name(name),
        !dir.contains('\\'),
        dir.len() > 0 ==> dir.len() == 1 || !(dir[0] == '/' && dir[1] == '/'),
        dir.len() == 1 ==> dir[0] != '/',
    ensures
        has_plain_name(dir + seq!['/'] + name),
        has_plain_name(name),
{
    let p = dir + seq!['/'] + name;
    lemma_start_of_name(dir, name);
    assert(p.skip(dir.len() as int + 1) =~= name);
    assert(name.skip(0) =~= name);
    assert(name.contains(name[0]));
    assert(!p.contains('\\')) by {
        if p.contains('\\') {
            let k = choose|k: int| 0 <= k < p.len() && p[k] == '\\';
            if k < dir.len() {
                assert(dir[k] == '\\');
            } else if k > dir.len() {
                assert(name[k - dir.len() - 1] == '\\');
            }
        }
    }
    assert(!is_share(p)) by {
        if dir.len() == 0 {
            assert(p[1] == name[0]);
        } else if dir.len() == 1 {
            assert(p[0] == dir[0]);
            assert(dir.contains(dir[0]));
        } else {
            assert(p[0] == dir[0] && p[1] == dir[1]);
            assert(dir.contains(dir[0]) && dir.contains(dir[1]));
        }
    }
    assert(!is_share(name));
}

/// The file name of a path is what stands behind its last slash.
pub proof fn lemma_file_names(dir: Seq<char>, name: Seq<char>, found: Option<Seq<char>>)
    requires
        is_name(name),
        !dir.contains('\\'),
        dir.len() > 0 ==> dir.len() == 1 || !(dir[0] == '/' && dir[1] == '/'),
        dir.len() == 1 ==> dir[0] != '/',
    ensures
        is_file_name_of(dir + seq!['/'] + name, found) ==> found == Some(name),
        is_file_name_of(name, found) ==> found == Some(name),
{
    let p = dir + seq!['/'] + name;
    lemma_plain_path(dir, name);
    lemma_start_of_name(dir, name);
    assert(p.skip(dir.len() as int + 1) =~= name);
    assert(name.skip(0) =~= name);
    if is_file_name_of(p, found) {
        lemma_plain_name(p, found);
    }
    if is_file_name_of(name, found) {
        lemma_plain_name(name, found);
    }
}

/// The directory of a path is what stands before its last slash, and a name alone has none before
/// it.
#[verifier::rlimit(40)]
pub proof fn lemma_directories(
    above: Seq<char>,
    dir: Seq<char>,
    name: Seq<char>,
    found: Option<Seq<char>>,
)
    requires
        is_name(name),
        is_name(dir),
        !above.contains('\\'),
        above.len() > 0 ==> above.len() == 1 || !(above[0] == '/' && above[1] == '/'),
        above.len() == 1 ==> above[0] != '/',
        above.len() != 2 || above[1] != ':',
    ensures
        is_parent_of(above + seq!['/'] + dir + seq!['/'] + name, found) && !is_drive_dot(
            above + seq!['/'] + dir + seq!['/'] + name,
        ) ==> found == Some(above + seq!['/'] + dir),
        is_parent_of(dir + seq!['/'] + name, found) ==> found == Some(dir),
        is_parent_of(name, found) ==> found == Some(Seq::<char>::empty()),
{
    let d = above + seq!['/'] + dir;
    let p = d + seq!['/'] + name;
    lemma_plain_path(above, dir);
    assert(!d.contains('\\')) by {
        assert(has_plain_name(d));
    }
    assert(d.len() > 1);
    assert(!(d[0] == '/' && d[1] == '/')) by {
        assert(has_plain_name(d));
    }
    lemma_plain_path(d, name);
    lemma_start_of_name(d, name);
    assert(p.take(d.len() as int) =~= d);
    if is_parent_of(p, found) && !is_drive_dot(p) {
        lemma_plain_parent(p, found);
    }
    let q = dir + seq!['/'] + name;
    assert(dir.contains(dir[0]));
    assert(dir.len() > 1 ==> dir.contains(dir[1]));
    lemma_plain_path(dir, name);
    lemma_start_of_name(dir, name);
    lemma_start_of_name(dir, dir);
    assert(q.take(dir.len() as int) =~= dir);
    assert(!is_drive_dot(q)) by {
        if is_drive_dot(q) {
            if dir.len() > 1 {
                assert(q[1] == dir[1]);
            } else {
                assert(q[1] == '/');
            }
        }
    }
    if is_parent_of(q, found) {
        assert(has_plain_parent(q));
        lemma_plain_parent(q, found);
    }
    if is_parent_of(name, found) {
        lemma_plain_parent(name, found);
    }
}

/// The file that is shown leads from the directory that it stands in.
pub proof fn lemma_files_are_shown_from_their_directory(
    content: Seq<char>,
    dir: Seq<char>,
    name: Seq<char>,
    out: Seq<char>,
)
    requires
        is_name(name),
        is_name(dir),
        is_view_of(content, dir + seq!['/'] + name, out),
    ensures
        is_shown_text(content, dir, false, out),
{
    let p = dir + seq!['/'] + name;
    let parent = choose|parent: Option<Seq<char>>|
        is_parent_of(p, parent) && is_shown_text(content, #[trigger] or_empty(parent), false, out);
    lemma_directories(seq![], dir, name, parent);
}

/// A document of the book leads from the directory that it stands in.
pub proof fn lemma_documents_lead_from_their_directory(
    raw: Seq<char>,
    dir: Seq<char>,
    name: Seq<char>,
    out: Seq<char>,
)
    requires
        is_name(name),
        is_name(dir),
        is_book_text(raw, dir + seq!['/'] + name, out),
    ensures
        is_shown_text(raw, dir, true, out),
{
    let p = dir + seq!['/'] + name;
    let parent = choose|parent: Option<Seq<char>>|
        is_parent_of(p, parent) && is_shown_text(raw, #[trigger] or_empty(parent), true, out);
    lemma_directories(seq![], dir, name, parent);
}

/// Of the browsers that come with the program, one lies in the directory of the program and one in
/// the directory above that.
pub proof fn lemma_where_browsers_lie(
    root: Seq<char>,
    dir: Seq<char>,
    name: Seq<char>,
    installed: Option<Seq<char>>,
    beside: Option<Seq<char>>,
)
    requires
        is_name(root),
        is_name(dir),
        is_name(name),
        root.len() != 2,
        are_bundled(Some(root + seq!['/'] + dir + seq!['/'] + name), installed, beside),
    ensures
        installed matches Some(path) && is_bundled(root, path),
        beside matches Some(path) && is_bundled(root + seq!['/'] + dir, path),
{
    let exe = root + seq!['/'] + dir + seq!['/'] + name;
    let (d, r) = choose|d: Option<Seq<char>>, r: Option<Seq<char>>| #[trigger]
        are_bundled_in(Some(exe), d, r, installed, beside);
    assert(root.contains(root[0]));
    assert(root.len() > 1 ==> root.contains(root[1]));
    assert(!is_drive_dot(exe)) by {
        if is_drive_dot(exe) {
            if root.len() > 1 {
                assert(exe[1] == root[1]);
            } else {
                assert(exe[1] == '/');
            }
        }
    }
    lemma_directories(root, dir, name, d);
    lemma_directories(seq![], root, dir, r);
}

/// Where slashes alone part components, a path stands behind a directory and one slash; one that
/// begins with a slash stands alone.
pub proof fn lemma_joining_with_slashes(dir: Seq<char>, path: Seq<char>)
    requires
        dir.len() > 0,
        dir.last() != '/',
        path.len() > 0,
    ensures
        path[0] != '/' ==> joined_on(dir, path, false) == dir + seq!['/'] + path,
        path[0] != '/' ==> joined_on(dir.push('/'), path, false) == dir + seq!['/'] + path,
        path[0] != '/' ==> joined_on(seq![], path, false) == path,
        path[0] == '/' ==> joined_on(dir, path, false) == path,
{
    assert(dir.push('/') + path =~= dir + seq!['/'] + path);
    assert(Seq::<char>::empty() + path =~= path);
}

/// On Windows a path stands behind a directory and a backslash. One with a drive stands alone, and
/// one that begins with a separator stands behind the drive of the directory.
pub proof fn lemma_joining_on_windows(
    letter: char,
    dir: Seq<char>,
    path: Seq<char>,
    drive: char,
)
    requires
        'a' <= letter <= 'z' || 'A' <= letter <= 'Z',
        'a' <= drive <= 'z' || 'A' <= drive <= 'Z',
        dir.len() > 0,
        dir.last() != '/',
        dir.last() != '\\',
        path.len() > 0,
        path.len() > 1 ==> path[1] != ':',
        path.len() > 1 ==> path[1] != '/' && path[1] != '\\',
    ensures
        ({
            let whole = seq![letter, ':'] + dir;
            let other = seq![drive, ':'] + path;
            &&& path[0] != '/' && path[0] != '\\' ==> joined_on(whole, path, true) == whole + seq![
                '\\',
            ] + path
            &&& path[0] == '/' || path[0] == '\\' ==> joined_on(whole, path, true) == seq![
                letter,
                ':',
            ] + path
            &&& joined_on(whole, other, true) == other
            &&& is_absolute_on(other, true) <==> path[0] == '/' || path[0] == '\\'
        }),
{
    let whole = seq![letter, ':'] + dir;
    let other = seq![drive, ':'] + path;
    assert(whole[0] == letter && whole[1] == ':');
    assert(other[0] == drive && other[1] == ':' && other[2] == path[0]);
    assert(prefix_len(whole) == 2 && prefix_len(other) == 2);
    assert(prefix_len(path) == 0);
    assert(whole.last() == dir.last());
    assert(whole.take(2) =~= seq![letter, ':']);
}

proof fn lemma_separator_at(p: Seq<char>, from: int, to: int)
    requires
        0 <= from <= to <= p.len(),
        forall|k: int| from <= k < to ==> (#[trigger] p[k]) != '/' && p[k] != '\\',
        to < p.len() ==> p[to] == '/' || p[to] == '\\',
    ensures
        separator_from(p, from) == to,
    decreases to - from,
{
    if from < to {
        assert(p[from] != '/' && p[from] != '\\');
        lemma_separator_at(p, from + 1, to);
    }
}

/// A share on Windows is two separators, the name of a server, a separator and the name of a share.
pub proof fn lemma_shares(server: Seq<char>, share: Seq<char>, rest: Seq<char>)
    requires
        is_name(server),
        is_name(share),
        rest.len() > 0 ==> rest[0] == '\\',
    ensures
        ({
            let p = seq!['\\', '\\'] + server + seq!['\\'] + share + rest;
            prefix_len(p) == p.len() - rest.len() && is_absolute_on(p, true)
        }),
{
    let p = seq!['\\', '\\'] + server + seq!['\\'] + share + rest;
    let a = 2 + server.len() as int;
    let b = a + 1 + share.len();
    assert(p[0] == '\\' && p[1] == '\\' && p[a] == '\\');
    assert forall|k: int| 2 <= k < a implies (#[trigger] p[k]) != '/' && p[k] != '\\' by {
        assert(p[k] == server[k - 2]);
        assert(server.contains(server[k - 2]));
    }
    assert forall|k: int| a + 1 <= k < b implies (#[trigger] p[k]) != '/' && p[k] != '\\' by {
        assert(p[k] == share[k - a - 1]);
        assert(share.contains(share[k - a - 1]));
    }
    assert(b < p.len() ==> p[b] == rest[0]);
    lemma_separator_at(p, 2, a);
    lemma_separator_at(p, a + 1, b);
    assert(p[2] == server[0]);
    assert(!(p[2] == '.' && (p[3] == '/' || p[3] == '\\'))) by {
        if p[2] == '.' && (p[3] == '/' || p[3] == '\\') {
            if server.len() > 1 {
                assert(p[3] == server[1]);
                assert(server.contains(server[1]));
            } else {
                assert(server =~= seq!['.']);
            }
        }
    }
}

/// A slash stands for each backslash, and nothing else changes.
pub proof fn lemma_slashes(s: Seq<char>, k: int)
    requires
        0 <= k < s.len(),
    ensures
        slashed(s).len() == s.len(),
        s[k] == '\\' ==> slashed(s)[k] == '/',
        s[k] != '\\' ==> slashed(s)[k] == s[k],
{
}

proof fn lemma_slashed_join(a: Seq<char>, b: Seq<char>, path: Seq<char>)
    requires
        slashed(a) == slashed(b),
        a.len() > 0,
        a.last() != '/',
        a.last() != '\\',
        b.len() > 0,
        b.last() != '/',
    ensures
        slashed(plain_join(a, path)) == slashed(plain_join(b, path)),
{
    assert(slashed(a).len() == a.len() && slashed(b).len() == b.len());
    let x = plain_join(a, path);
    let y = plain_join(b, path);
    assert(b.len() > 0);
    assert(x =~= a + seq!['/'] + path && y =~= b + seq!['/'] + path);
    assert forall|k: int| 0 <= k < x.len() implies slashed(x)[k] == slashed(y)[k] by {
        lemma_slashes(x, k);
        lemma_slashes(y, k);
        if k < a.len() {
            lemma_slashes(a, k);
            lemma_slashes(b, k);
            assert(slashed(a)[k] == slashed(b)[k]);
            assert(x[k] == a[k] && y[k] == b[k]);
        }
    }
    assert(slashed(x) =~= slashed(y));
}

/// The browser that comes with the program lies two directories below that of the program.
#[verifier::rlimit(40)]
pub proof fn lemma_bundled_browser(dir: Seq<char>, path: Seq<char>)
    requires
        is_bundled(dir, path),
        is_plain_dir(dir),
        dir.len() > 2,
        dir.last() != '/',
    ensures
        slashed(path) == slashed(dir + "/chromium/chrome-win/chrome.exe"@),
{
    reveal_strlit("chromium");
    reveal_strlit("chrome-win");
    reveal_strlit("chrome.exe");
    reveal_strlit("/chromium/chrome-win/chrome.exe");
    let (a, b) = choose|a: Seq<char>, b: Seq<char>|
        is_joined(dir, "chromium"@, a) && #[trigger] is_joined(a, "chrome-win"@, b) && is_joined(
            b,
            "chrome.exe"@,
            path,
        );
    assert(!"chromium"@.contains(':') && !"chrome-win"@.contains(':')
        && !"chrome.exe"@.contains(':'));
    lemma_plain_join(dir, "chromium"@, a);
    let a1 = plain_join(dir, "chromium"@);
    lemma_same_shape(a, a1, dir);
    lemma_plain_join(a, "chrome-win"@, b);
    let b1 = plain_join(a1, "chrome-win"@);
    lemma_slashed_join(a, a1, "chrome-win"@);
    lemma_same_shape(b, b1, dir);
    lemma_plain_join(b, "chrome.exe"@, path);
    lemma_slashed_join(b, b1, "chrome.exe"@);
    let c1 = plain_join(b1, "chrome.exe"@);
    assert(c1 =~= dir + "/chromium/chrome-win/chrome.exe"@);
}

proof fn lemma_same_shape(a: Seq<char>, b: Seq<char>, dir: Seq<char>)
    requires
        slashed(a) == slashed(b),
        is_plain_dir(dir),
        dir.len() > 2,
        dir.is_prefix_of(b),
        b.last() != '/',
        b.last() != '\\',
        b.last() != ':',
    ensures
        is_plain_dir(a),
        a.len() == b.len(),
        a.last() == b.last(),
{
    assert(slashed(a).len() == a.len() && slashed(b).len() == b.len());
    let n = a.len() - 1;
    assert(slashed(a)[n] == slashed(b)[n]);
    assert(dir[0] == b[0] && dir[1] == b[1] && dir[2] == b[2]) by {
        assert(b.subrange(0, dir.len() as int) == dir);
        assert(b.subrange(0, dir.len() as int)[0] == b[0]);
        assert(b.subrange(0, dir.len() as int)[1] == b[1]);
        assert(b.subrange(0, dir.len() as int)[2] == b[2]);
    }
    lemma_slashes(a, n);
    lemma_slashes(b, n);
    lemma_slashes(a, 0);
    lemma_slashes(b, 0);
    lemma_slashes(a, 1);
    lemma_slashes(b, 1);
    lemma_slashes(a, 2);
    lemma_slashes(b, 2);
}

} // verus!
