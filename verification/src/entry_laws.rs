//! The documents of a tree one after the other, and their numbers in the book.
use crate::anchors::{anchor, decimal, digit, document_count, file_of};
use crate::entries::{all_entries, entries_of, max_nesting, nesting, Entry};
use crate::tree::Tree;
use vstd::prelude::*;

verus! {

/// The entries of siblings stand in a row.
pub proof fn lemma_entries_in_a_row(a: Seq<Tree>, b: Seq<Tree>, depth: int)
    ensures
        all_entries(seq![], depth) == Seq::<Entry>::empty(),
        all_entries(a + b, depth) == all_entries(a, depth) + all_entries(b, depth),
    decreases b.len(),
{
    if b.len() == 0 {
        assert(a + b =~= a);
        assert(all_entries(a, depth) + all_entries(b, depth) =~= all_entries(a, depth));
    } else {
        lemma_entries_in_a_row(a, b.drop_last(), depth);
        assert((a + b).drop_last() =~= a + b.drop_last());
        assert(all_entries(a + b, depth) =~= all_entries(a, depth) + all_entries(b, depth));
    }
}

/// A file is a document, and a directory is a heading and then all that it holds, one level deeper.
pub proof fn lemma_entry_of_each(
    name: Seq<char>,
    path: Seq<char>,
    children: Seq<Tree>,
    depth: int,
)
    ensures
        all_entries(seq![Tree::File { name, path }], depth) == seq![Entry::Document { path, depth }],
        all_entries(seq![Tree::Dir { name, path, children }], depth) == seq![
            Entry::Section { name, dir_path: path, depth },
        ] + all_entries(children, depth + 1),
{
    reveal_with_fuel(entries_of, 2);
    reveal_with_fuel(all_entries, 2);
    let file = seq![Tree::File { name, path }];
    let dir = seq![Tree::Dir { name, path, children }];
    let none = Seq::<Tree>::empty();
    assert(file.drop_last() =~= none && dir.drop_last() =~= none);
    assert(all_entries(none, depth) =~= seq![]);
    assert(file.last() == Tree::File { name, path });
    assert(dir.last() == Tree::Dir { name, path, children });
    assert(all_entries(file, depth) =~= seq![Entry::Document { path, depth }]);
    assert(all_entries(dir, depth) =~= seq![Entry::Section { name, dir_path: path, depth }]
        + all_entries(children, depth + 1));
}

/// A directory is nested one level deeper than the deepest directory that it holds.
pub proof fn lemma_levels(a: Seq<Tree>, name: Seq<char>, path: Seq<char>, children: Seq<Tree>)
    ensures
        max_nesting(seq![]) == 0,
        max_nesting(a.push(Tree::File { name, path })) == if max_nesting(a) < 0 {
            0
        } else {
            max_nesting(a)
        },
        max_nesting(a.push(Tree::Dir { name, path, children })) >= max_nesting(a),
        max_nesting(a.push(Tree::Dir { name, path, children })) >= 1 + max_nesting(children),
        max_nesting(a.push(Tree::Dir { name, path, children })) == max_nesting(a) || max_nesting(
            a.push(Tree::Dir { name, path, children }),
        ) == 1 + max_nesting(children),
{
    reveal_with_fuel(nesting, 2);
    reveal_with_fuel(max_nesting, 2);
    assert(a.push(Tree::File { name, path }).drop_last() =~= a);
    assert(a.push(Tree::Dir { name, path, children }).drop_last() =~= a);
}

/// The number of a document is the number of documents before it.
pub proof fn lemma_numbers(entries: Seq<Entry>, n: int)
    requires
        0 <= n < entries.len(),
    ensures
        document_count(entries, 0) == 0,
        entries[n] is Document ==> document_count(entries, n + 1) == document_count(entries, n) + 1,
        entries[n] is Section ==> document_count(entries, n + 1) == document_count(entries, n),
{
}

/// The value of a text of decimal digits.
pub open spec fn value(s: Seq<char>) -> int
    decreases s.len(),
{
    if s.len() == 0 {
        0
    } else {
        10 * value(s.drop_last()) + (s.last() as u32 - '0' as u32)
    }
}

/// The place of a document is its number in decimal digits behind `doc-`, without zeros before it.
pub proof fn lemma_anchors(k: nat)
    ensures
        anchor(k).len() > 4,
        anchor(k).take(4) == seq!['d', 'o', 'c', '-'],
        forall|i: int| 4 <= i < anchor(k).len() ==> '0' <= #[trigger] anchor(k)[i] <= '9',
        value(anchor(k).skip(4)) == k,
        k > 0 ==> anchor(k)[4] != '0',
{
    reveal_strlit("doc-");
    lemma_decimals(k);
    let a = anchor(k);
    assert(a.take(4) =~= seq!['d', 'o', 'c', '-']);
    assert(a.skip(4) =~= decimal(k));
    assert forall|i: int| 4 <= i < a.len() implies '0' <= #[trigger] a[i] <= '9' by {
        assert(a[i] == decimal(k)[i - 4]);
    }
    assert(a[4] == decimal(k)[0]);
}

proof fn lemma_decimals(n: nat)
    ensures
        decimal(n).len() > 0,
        forall|i: int| 0 <= i < decimal(n).len() ==> '0' <= #[trigger] decimal(n)[i] <= '9',
        value(decimal(n)) == n,
        n > 0 ==> decimal(n)[0] != '0',
    decreases n,
{
    let d = digit(n % 10);
    assert(d as u32 == 48 + n % 10);
    let s = decimal(n);
    if n < 10 {
        assert(s.drop_last() =~= seq![]);
        assert(value(s.drop_last()) == 0);
    } else {
        lemma_decimals(n / 10);
        let front = decimal(n / 10);
        assert(s.drop_last() =~= front);
        assert forall|i: int| 0 <= i < s.len() implies '0' <= #[trigger] s[i] <= '9' by {
            if i < front.len() {
                assert(s[i] == front[i]);
            }
        }
        assert(s[0] == front[0]);
    }
}

/// A document has the file that is known of it, and its path where none is.
pub proof fn lemma_files(files: Seq<Option<Seq<char>>>, k: int, path: Seq<char>)
    requires
        0 <= k < files.len(),
    ensures
        files[k] is Some ==> Some(file_of(files, k, path)) == files[k],
        files[k] is None ==> file_of(files, k, path) == path,
{
}

} // verus!
