//! Moving a file or directory among its siblings.
use crate::links::same_text;
use crate::tree::{lemma_children, names, trees, FileNode, NodeKind, OrderConfig, Tree};
use vstd::prelude::*;

verus! {

/// `s` with the element at `from` moved to the place `to`.
pub open spec fn moved<T>(s: Seq<T>, from: int, to: int) -> Seq<T> {
    s.remove(from).insert(to, s[from])
}

/// The children of the directory at `target`, if it is `t` or in it. Of two such directories the
/// first one counts.
pub open spec fn children_in(t: Tree, target: Seq<char>) -> Option<Seq<Tree>>
    decreases t,
{
    match t {
        Tree::File { .. } => None,
        Tree::Dir { path, children, .. } => if path == target {
            Some(children)
        } else {
            children_among(children, target)
        },
    }
}

/// The children of the directory at `target`, if it is among or in `ts`.
pub open spec fn children_among(ts: Seq<Tree>, target: Seq<char>) -> Option<Seq<Tree>>
    decreases ts,
{
    if ts.len() == 0 {
        None
    } else {
        match children_among(ts.drop_last(), target) {
            Some(c) => Some(c),
            None => children_in(ts.last(), target),
        }
    }
}

/// `t` with `new` as the children of the directory at `target`.
pub open spec fn with_children_in(t: Tree, target: Seq<char>, new: Seq<Tree>) -> Tree
    decreases t,
{
    match t {
        Tree::File { .. } => t,
        Tree::Dir { name, path, children } => if path == target {
            Tree::Dir { name, path, children: new }
        } else {
            Tree::Dir { name, path, children: with_children_among(children, target, new) }
        },
    }
}

/// `ts` with `new` as the children of the directory at `target`.
pub open spec fn with_children_among(ts: Seq<Tree>, target: Seq<char>, new: Seq<Tree>) -> Seq<Tree>
    decreases ts,
{
    if ts.len() == 0 {
        ts
    } else if children_among(ts.drop_last(), target) is Some {
        with_children_among(ts.drop_last(), target, new).push(ts.last())
    } else {
        ts.drop_last().push(with_children_in(ts.last(), target, new))
    }
}

/// Whether there is something to move from `from` to `to` among siblings of which there are
/// `len`.
pub open spec fn can_move(len: int, from: int, to: int) -> bool {
    from < len && to < len && from != to
}

/// The siblings in the directory `parent` of the tree `ts`, whose root is the directory `root`.
pub open spec fn siblings(ts: Seq<Tree>, root: Seq<char>, parent: Seq<char>) -> Option<Seq<Tree>> {
    if parent == root {
        Some(ts)
    } else {
        children_among(ts, parent)
    }
}

/// The tree `ts`, whose root is the directory `root`, with `new` as the siblings in `parent`.
pub open spec fn with_siblings(
    ts: Seq<Tree>,
    root: Seq<char>,
    parent: Seq<char>,
    new: Seq<Tree>,
) -> Seq<Tree> {
    if parent == root {
        new
    } else {
        with_children_among(ts, parent, new)
    }
}

fn move_node(nodes: &mut Vec<FileNode>, from: usize, to: usize)
    requires
        from < old(nodes)@.len(),
        to < old(nodes)@.len(),
    ensures
        trees(final(nodes)@) == moved(trees(old(nodes)@), from as int, to as int),
{
    let node = nodes.remove(from);
    nodes.insert(to, node);
    assert(trees(nodes@) =~= moved(trees(old(nodes)@), from as int, to as int));
}

/// What came of looking for the siblings to move one of.
enum Search {
    /// There is no such directory.
    Absent,
    /// There is nothing to move among the siblings.
    Still,
    /// The siblings have a new order.
    Moved,
}

fn move_among(
    nodes: &mut Vec<FileNode>,
    order: &mut OrderConfig,
    parent: &str,
    from: usize,
    to: usize,
) -> (r: Search)
    ensures
        match r {
            Search::Absent => false,
            Search::Still => !can_move(old(nodes)@.len() as int, from as int, to as int)
                && final(nodes)@ == old(nodes)@ && final(order)@ == old(order)@,
            Search::Moved => can_move(old(nodes)@.len() as int, from as int, to as int) && trees(
                final(nodes)@,
            ) == moved(trees(old(nodes)@), from as int, to as int) && final(order)@ == old(
                order,
            )@.insert(parent@, names(moved(trees(old(nodes)@), from as int, to as int))),
        },
{
    if from < nodes.len() && to < nodes.len() && from != to {
        move_node(nodes, from, to);
        order.set_order(parent, nodes);
        Search::Moved
    } else {
        Search::Still
    }
}

proof fn lemma_first_holder(ts: Seq<Tree>, target: Seq<char>, i: int, new: Seq<Tree>)
    requires
        0 <= i < ts.len(),
        children_among(ts.take(i), target) is None,
        children_in(ts[i], target) is Some,
    ensures
        children_among(ts, target) == children_in(ts[i], target),
        with_children_among(ts, target, new) == ts.update(
            i,
            with_children_in(ts[i], target, new),
        ),
    decreases ts.len(),
{
    let front = ts.drop_last();
    if i == ts.len() - 1 {
        assert(ts.take(i) =~= front);
        assert(front.push(with_children_in(ts[i], target, new)) =~= ts.update(
            i,
            with_children_in(ts[i], target, new),
        ));
    } else {
        assert(front.take(i) =~= ts.take(i));
        lemma_first_holder(front, target, i, new);
        assert(front.update(i, with_children_in(ts[i], target, new)).push(ts.last()) =~= ts.update(
            i,
            with_children_in(ts[i], target, new),
        ));
    }
}

fn holds(node: &FileNode, target: &str) -> (b: bool)
    ensures
        b == (children_in(node.tree(), target@) is Some),
    decreases *node,
{
    proof {
        lemma_children(*node);
    }
    match &node.kind {
        NodeKind::File => false,
        NodeKind::Dir(children) => {
            if same_text(node.path.as_str(), target) {
                return true;
            }
            let ghost all = trees(children@);
            let mut i: usize = 0;
            while i < children.len()
                invariant
                    i <= children.len(),
                    node.kind == NodeKind::Dir(*children),
                    all == trees(children@),
                    node.tree() == (Tree::Dir {
                        name: node.name@,
                        path: node.path@,
                        children: all,
                    }),
                    node.path@ != target@,
                    children_among(all.take(i as int), target@) is None,
                decreases children.len() - i,
            {
                assert(all[i as int] == children@[i as int].tree());
                if holds(&children[i], target) {
                    proof {
                        lemma_first_holder(all, target@, i as int, seq![]);
                    }
                    return true;
                }
                assert(all.take(i + 1).drop_last() =~= all.take(i as int));
                i += 1;
            }
            assert(all.take(all.len() as int) =~= all);
            false
        },
    }
}

fn move_below(
    nodes: &mut Vec<FileNode>,
    order: &mut OrderConfig,
    parent: &str,
    from: usize,
    to: usize,
) -> (r: Search)
    ensures
        match children_among(trees(old(nodes)@), parent@) {
            None => r is Absent && trees(final(nodes)@) == trees(old(nodes)@) && final(order)@
                == old(order)@,
            Some(c) => if can_move(c.len() as int, from as int, to as int) {
                &&& r is Moved
                &&& trees(final(nodes)@) == with_children_among(
                    trees(old(nodes)@),
                    parent@,
                    moved(c, from as int, to as int),
                )
                &&& final(order)@ == old(order)@.insert(
                    parent@,
                    names(moved(c, from as int, to as int)),
                )
            } else {
                r is Still && trees(final(nodes)@) == trees(old(nodes)@) && final(order)@ == old(
                    order,
                )@
            },
        },
    decreases *old(nodes),
{
    let ghost all = trees(nodes@);
    let mut i: usize = 0;
    while i < nodes.len()
        invariant
            i <= nodes@.len(),
            *nodes == *old(nodes),
            order@ == old(order)@,
            all == trees(old(nodes)@),
            children_among(all.take(i as int), parent@) is None,
        decreases nodes@.len() - i,
    {
        assert(all[i as int] == nodes@[i as int].tree());
        if holds(&nodes[i], parent) {
            let here = same_text(nodes[i].path.as_str(), parent);
            let ghost node = nodes@[i as int];
            let ghost c = children_in(all[i as int], parent@)->0;
            let ghost new = moved(c, from as int, to as int);
            proof {
                lemma_children(node);
                lemma_first_holder(all, parent@, i as int, new);
            }
            let r = match &mut nodes[i].kind {
                NodeKind::Dir(children) => {
                    if here {
                        move_among(children, order, parent, from, to)
                    } else {
                        move_below(children, order, parent, from, to)
                    }
                },
                NodeKind::File => Search::Absent,
            };
            proof {
                lemma_children(nodes@[i as int]);
                if can_move(c.len() as int, from as int, to as int) {
                    assert(trees(nodes@) =~= all.update(
                        i as int,
                        with_children_in(all[i as int], parent@, new),
                    ));
                } else {
                    assert(trees(nodes@) =~= all);
                }
            }
            return r;
        }
        assert(all.take(i + 1).drop_last() =~= all.take(i as int));
        i += 1;
    }
    assert(all.take(all.len() as int) =~= all);
    Search::Absent
}

/// Moves the node at `from` to the place `to` among the children of the directory `parent`, and
/// keeps their new order as put by hand. The tree `nodes` is that of the directory `root`. Tells
/// whether anything was moved.
pub fn reorder(
    nodes: &mut Vec<FileNode>,
    order: &mut OrderConfig,
    root: &str,
    parent: &str,
    from: usize,
    to: usize,
) -> (changed: bool)
    ensures
        changed == (siblings(trees(old(nodes)@), root@, parent@) matches Some(c) && can_move(
            c.len() as int,
            from as int,
            to as int,
        )),
        changed ==> {
            let new = moved(
                siblings(trees(old(nodes)@), root@, parent@)->0,
                from as int,
                to as int,
            );
            &&& trees(final(nodes)@) == with_siblings(trees(old(nodes)@), root@, parent@, new)
            &&& final(order)@ == old(order)@.insert(parent@, names(new))
        },
        !changed ==> trees(final(nodes)@) == trees(old(nodes)@) && final(order)@ == old(order)@,
{
    let r = if same_text(parent, root) {
        move_among(nodes, order, parent, from, to)
    } else {
        move_below(nodes, order, parent, from, to)
    };
    match r {
        Search::Moved => true,
        _ => false,
    }
}

/// Moving an element back restores the order.
pub proof fn lemma_moving_back<T>(s: Seq<T>, from: int, to: int)
    requires
        0 <= from < s.len(),
        0 <= to < s.len(),
    ensures
        moved(moved(s, from, to), to, from) == s,
{
    assert(moved(moved(s, from, to), to, from) =~= s);
}

/// Moving an element keeps all elements.
pub proof fn lemma_moving_permutes<T>(s: Seq<T>, from: int, to: int)
    requires
        0 <= from < s.len(),
        0 <= to < s.len(),
    ensures
        moved(s, from, to).len() == s.len(),
        moved(s, from, to).to_multiset() == s.to_multiset(),
{
    broadcast use vstd::seq_lib::group_to_multiset_ensures;

    let x = s[from];
    let r = s.remove(from);
    vstd::seq_lib::to_multiset_remove(s, from);
    vstd::seq_lib::to_multiset_insert(r, to, x);
    assert(s.to_multiset().count(x) > 0) by {
        assert(s.contains(x));
    }
    assert(s.to_multiset().remove(x).insert(x) =~= s.to_multiset());
}

/// The children that were put in a directory are found in it.
pub proof fn lemma_children_put_are_found(ts: Seq<Tree>, target: Seq<char>, new: Seq<Tree>)
    requires
        children_among(ts, target) is Some,
    ensures
        children_among(with_children_among(ts, target, new), target) == Some(new),
    decreases ts,
{
    let front = ts.drop_last();
    if children_among(front, target) is Some {
        lemma_children_put_are_found(front, target, new);
        let out = with_children_among(front, target, new).push(ts.last());
        assert(out.drop_last() =~= with_children_among(front, target, new));
    } else {
        lemma_children_put_in_are_found(ts.last(), target, new);
        let out = front.push(with_children_in(ts.last(), target, new));
        assert(out.drop_last() =~= front);
    }
}

proof fn lemma_children_put_in_are_found(t: Tree, target: Seq<char>, new: Seq<Tree>)
    requires
        children_in(t, target) is Some,
    ensures
        children_in(with_children_in(t, target, new), target) == Some(new),
    decreases t,
{
    if let Tree::Dir { path, children, .. } = t {
        if path != target {
            lemma_children_put_are_found(children, target, new);
        }
    }
}

/// What is put in place of the children of a directory takes the place of what was put there
/// before.
pub proof fn lemma_children_put_twice(
    ts: Seq<Tree>,
    target: Seq<char>,
    a: Seq<Tree>,
    b: Seq<Tree>,
)
    requires
        children_among(ts, target) is Some,
    ensures
        with_children_among(with_children_among(ts, target, a), target, b) == with_children_among(
            ts,
            target,
            b,
        ),
    decreases ts,
{
    let front = ts.drop_last();
    lemma_children_put_are_found(ts, target, a);
    if children_among(front, target) is Some {
        lemma_children_put_are_found(front, target, a);
        lemma_children_put_twice(front, target, a, b);
        let out = with_children_among(front, target, a).push(ts.last());
        assert(out.drop_last() =~= with_children_among(front, target, a));
    } else {
        lemma_children_put_in_twice(ts.last(), target, a, b);
        let out = front.push(with_children_in(ts.last(), target, a));
        assert(out.drop_last() =~= front);
    }
}

proof fn lemma_children_put_in_twice(t: Tree, target: Seq<char>, a: Seq<Tree>, b: Seq<Tree>)
    requires
        children_in(t, target) is Some,
    ensures
        with_children_in(with_children_in(t, target, a), target, b) == with_children_in(
            t,
            target,
            b,
        ),
    decreases t,
{
    if let Tree::Dir { path, children, .. } = t {
        if path != target {
            lemma_children_put_twice(children, target, a, b);
        }
    }
}

/// Putting back the children that a directory has changes nothing.
pub proof fn lemma_children_put_back(ts: Seq<Tree>, target: Seq<char>)
    requires
        children_among(ts, target) is Some,
    ensures
        with_children_among(ts, target, children_among(ts, target)->0) == ts,
    decreases ts,
{
    let front = ts.drop_last();
    assert(front.push(ts.last()) =~= ts);
    if children_among(front, target) is Some {
        lemma_children_put_back(front, target);
    } else {
        lemma_children_put_back_in(ts.last(), target);
    }
}

proof fn lemma_children_put_back_in(t: Tree, target: Seq<char>)
    requires
        children_in(t, target) is Some,
    ensures
        with_children_in(t, target, children_in(t, target)->0) == t,
    decreases t,
{
    if let Tree::Dir { path, children, .. } = t {
        if path != target {
            lemma_children_put_back(children, target);
        }
    }
}

/// Moving a node and moving it back leaves the whole tree as it was.
pub proof fn lemma_reordering_back(
    ts: Seq<Tree>,
    root: Seq<char>,
    parent: Seq<char>,
    from: int,
    to: int,
)
    requires
        siblings(ts, root, parent) is Some,
        0 <= from,
        0 <= to,
        can_move(siblings(ts, root, parent)->0.len() as int, from, to),
    ensures
        ({
            let there = with_siblings(
                ts,
                root,
                parent,
                moved(siblings(ts, root, parent)->0, from, to),
            );
            &&& siblings(there, root, parent) is Some
            &&& can_move(siblings(there, root, parent)->0.len() as int, to, from)
            &&& with_siblings(
                there,
                root,
                parent,
                moved(siblings(there, root, parent)->0, to, from),
            ) == ts
        }),
{
    let c = siblings(ts, root, parent)->0;
    let new = moved(c, from, to);
    lemma_moving_back(c, from, to);
    if parent != root {
        lemma_children_put_are_found(ts, parent, new);
        lemma_children_put_twice(ts, parent, new, c);
        lemma_children_put_back(ts, parent);
    }
}

} // verus!
