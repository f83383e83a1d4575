//! What moving a file or a directory changes, and what it leaves as it is.
use crate::reorder::{
    can_move, children_among, children_in, moved, siblings, with_children_among, with_children_in,
    with_siblings,
};
use crate::tree::Tree;
use vstd::prelude::*;

verus! {

/// What is moved stands at its new place, and the others keep their order.
pub proof fn lemma_what_is_moved<T>(s: Seq<T>, from: int, to: int)
    requires
        0 <= from < s.len(),
        0 <= to < s.len(),
    ensures
        moved(s, from, to).len() == s.len(),
        moved(s, from, to)[to] == s[from],
        moved(s, from, to).remove(to) == s.remove(from),
{
    assert(moved(s, from, to).remove(to) =~= s.remove(from));
}

/// Anything can be moved to any other place among its siblings.
pub proof fn lemma_what_can_be_moved(len: int, from: int, to: int)
    requires
        0 <= from,
        0 <= to,
    ensures
        can_move(len, from, to) <==> from < len && to < len && from != to,
{
}

/// A directory is looked for among its siblings in their order, and the first one that is it or
/// holds it counts.
pub proof fn lemma_search_in_a_row(a: Seq<Tree>, b: Seq<Tree>, target: Seq<char>, new: Seq<Tree>)
    ensures
        children_among(seq![], target) is None,
        children_among(a, target) is Some ==> children_among(a + b, target) == children_among(
            a,
            target,
        ) && (b.len() > 0 ==> with_children_among(a + b, target, new) == with_children_among(
            a,
            target,
            new,
        ) + b),
        children_among(a, target) is None ==> children_among(a + b, target) == children_among(
            b,
            target,
        ) && (b.len() > 0 ==> with_children_among(a + b, target, new) == a + with_children_among(
            b,
            target,
            new,
        )),
    decreases b.len(),
{
    if b.len() == 0 {
        assert(a + b =~= a);
    } else {
        let front = b.drop_last();
        lemma_search_in_a_row(a, front, target, new);
        assert((a + b).drop_last() =~= a + front);
        assert((a + b).last() == b.last());
        if children_among(a, target) is Some {
            if front.len() == 0 {
                assert(a + front =~= a);
            }
            assert(with_children_among(a + b, target, new) =~= with_children_among(a, target, new)
                + b);
        } else {
            assert(with_children_among(a + b, target, new) =~= a + with_children_among(
                b,
                target,
                new,
            ));
        }
    }
}

/// A directory has the children that it has, wherever it stands in the tree, and a file has none.
pub proof fn lemma_search_of_each(
    name: Seq<char>,
    path: Seq<char>,
    children: Seq<Tree>,
    target: Seq<char>,
    new: Seq<Tree>,
)
    ensures
        ({
            let file = seq![Tree::File { name, path }];
            let dir = seq![Tree::Dir { name, path, children }];
            &&& children_among(file, target) is None
            &&& with_children_among(file, target, new) == file
            &&& path == target ==> children_among(dir, target) == Some(children)
            &&& path == target ==> with_children_among(dir, target, new) == seq![
                Tree::Dir { name, path, children: new },
            ]
            &&& path != target ==> children_among(dir, target) == children_among(children, target)
            &&& path != target ==> with_children_among(dir, target, new) == seq![
                Tree::Dir { name, path, children: with_children_among(children, target, new) },
            ]
        }),
{
    reveal_with_fuel(children_among, 2);
    reveal_with_fuel(with_children_among, 2);
    reveal_with_fuel(children_in, 2);
    reveal_with_fuel(with_children_in, 2);
    let file = seq![Tree::File { name, path }];
    let dir = seq![Tree::Dir { name, path, children }];
    let none = Seq::<Tree>::empty();
    assert(file.drop_last() =~= none && dir.drop_last() =~= none);
    assert(file.last() == Tree::File { name, path });
    assert(dir.last() == Tree::Dir { name, path, children });
    assert(none.push(file.last()) =~= file);
    let changed = with_children_in(dir.last(), target, new);
    assert(none.push(changed) =~= seq![changed]);
}

/// The siblings in the root of a tree are the tree itself, and those in any other directory are
/// found in it.
pub proof fn lemma_siblings(
    ts: Seq<Tree>,
    root: Seq<char>,
    parent: Seq<char>,
    new: Seq<Tree>,
)
    ensures
        siblings(ts, root, root) == Some(ts),
        with_siblings(ts, root, root, new) == new,
        parent != root ==> siblings(ts, root, parent) == children_among(ts, parent),
        parent != root ==> with_siblings(ts, root, parent, new) == with_children_among(
            ts,
            parent,
            new,
        ),
{
}

} // verus!
