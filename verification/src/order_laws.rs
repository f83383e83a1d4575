//! An order that is put by hand stays: the tree that is built anew is the one that was left.
use crate::reorder::{
    can_move, children_among, children_in, lemma_moving_permutes, moved, siblings,
    with_children_among, with_children_in, with_siblings,
};
use crate::sorting::{inserted, lemma_sorting_permutes, stable_sorted};
use crate::tree::{all_arranged, arranged, by_name, by_place, in_order, names, Tree};
use crate::tree_laws::{lemma_kept_order_comes_back, lemma_order_permutes};
use vstd::prelude::*;

verus! {

/// The number of directories at `target` in `t`, itself included.
pub open spec fn dir_count_in(t: Tree, target: Seq<char>) -> nat
    decreases t,
{
    match t {
        Tree::File { .. } => 0,
        Tree::Dir { path, children, .. } => dir_count(children, target) + if path == target {
            1nat
        } else {
            0nat
        },
    }
}

/// The number of directories at `target` among and in `ts`.
pub open spec fn dir_count(ts: Seq<Tree>, target: Seq<char>) -> nat
    decreases ts,
{
    if ts.len() == 0 {
        0
    } else {
        dir_count(ts.drop_last(), target) + dir_count_in(ts.last(), target)
    }
}

proof fn lemma_count_of_push(ts: Seq<Tree>, x: Tree, target: Seq<char>)
    ensures
        dir_count(ts.push(x), target) == dir_count(ts, target) + dir_count_in(x, target),
{
    assert(ts.push(x).drop_last() =~= ts);
}

proof fn lemma_count_of_inserted(
    s: Seq<Tree>,
    x: Tree,
    le: spec_fn(Tree, Tree) -> bool,
    target: Seq<char>,
)
    ensures
        dir_count(inserted(s, x, le), target) == dir_count(s, target) + dir_count_in(x, target),
    decreases s.len(),
{
    if s.len() == 0 || le(s.last(), x) {
        lemma_count_of_push(s, x, target);
    } else {
        lemma_count_of_inserted(s.drop_last(), x, le, target);
        lemma_count_of_push(inserted(s.drop_last(), x, le), s.last(), target);
        assert(s.drop_last().push(s.last()) =~= s);
        lemma_count_of_push(s.drop_last(), s.last(), target);
    }
}

proof fn lemma_count_of_sorted(s: Seq<Tree>, le: spec_fn(Tree, Tree) -> bool, target: Seq<char>)
    ensures
        dir_count(stable_sorted(s, le), target) == dir_count(s, target),
    decreases s.len(),
{
    if s.len() > 0 {
        let front = s.drop_last();
        lemma_count_of_sorted(front, le, target);
        lemma_count_of_inserted(stable_sorted(front, le), s.last(), le, target);
        assert(front.push(s.last()) =~= s);
        lemma_count_of_push(front, s.last(), target);
    }
}

proof fn lemma_count_in_order(
    ts: Seq<Tree>,
    orders: Map<Seq<char>, Seq<Seq<char>>>,
    parent: Seq<char>,
    target: Seq<char>,
)
    ensures
        dir_count(in_order(ts, orders, parent), target) == dir_count(ts, target),
{
    lemma_count_of_sorted(ts, by_name(), target);
    if orders.contains_key(parent) {
        lemma_count_of_sorted(
            stable_sorted(ts, by_name()),
            by_place(orders[parent]),
            target,
        );
    }
}

proof fn lemma_count_arranged_in(
    t: Tree,
    orders: Map<Seq<char>, Seq<Seq<char>>>,
    target: Seq<char>,
)
    ensures
        arranged(t, orders) matches Some(a) ==> dir_count_in(a, target) <= dir_count_in(t, target),
    decreases t,
{
    if let Tree::Dir { path, children, .. } = t {
        lemma_count_arranged(children, orders, target);
        lemma_count_in_order(all_arranged(children, orders), orders, path, target);
    }
}

proof fn lemma_count_arranged(
    ts: Seq<Tree>,
    orders: Map<Seq<char>, Seq<Seq<char>>>,
    target: Seq<char>,
)
    ensures
        dir_count(all_arranged(ts, orders), target) <= dir_count(ts, target),
    decreases ts,
{
    if ts.len() > 0 {
        let front = ts.drop_last();
        lemma_count_arranged(front, orders, target);
        lemma_count_arranged_in(ts.last(), orders, target);
        assert(front.push(ts.last()) =~= ts);
        lemma_count_of_push(front, ts.last(), target);
        if let Some(a) = arranged(ts.last(), orders) {
            lemma_count_of_push(all_arranged(front, orders), a, target);
        }
    }
}

proof fn lemma_counted_is_found_in(t: Tree, target: Seq<char>)
    ensures
        (dir_count_in(t, target) == 0) == (children_in(t, target) is None),
    decreases t,
{
    if let Tree::Dir { path, children, .. } = t {
        lemma_counted_is_found(children, target);
    }
}

proof fn lemma_counted_is_found(ts: Seq<Tree>, target: Seq<char>)
    ensures
        (dir_count(ts, target) == 0) == (children_among(ts, target) is None),
    decreases ts,
{
    if ts.len() > 0 {
        lemma_counted_is_found(ts.drop_last(), target);
        lemma_counted_is_found_in(ts.last(), target);
    }
}

proof fn lemma_count_of_one(ts: Seq<Tree>, i: int, target: Seq<char>)
    requires
        0 <= i < ts.len(),
    ensures
        dir_count_in(ts[i], target) <= dir_count(ts, target),
    decreases ts.len(),
{
    if i < ts.len() - 1 {
        lemma_count_of_one(ts.drop_last(), i, target);
    }
}

/// Where there is no such directory, putting children in it changes nothing.
proof fn lemma_nothing_put_in(t: Tree, target: Seq<char>, new: Seq<Tree>)
    requires
        dir_count_in(t, target) == 0,
    ensures
        with_children_in(t, target, new) == t,
    decreases t,
{
    if let Tree::Dir { path, children, .. } = t {
        lemma_nothing_put(children, target, new);
    }
}

proof fn lemma_nothing_put(ts: Seq<Tree>, target: Seq<char>, new: Seq<Tree>)
    requires
        dir_count(ts, target) == 0,
    ensures
        with_children_among(ts, target, new) == ts,
    decreases ts,
{
    if ts.len() > 0 {
        lemma_counted_is_found(ts.drop_last(), target);
        lemma_nothing_put_in(ts.last(), target, new);
        assert(ts.drop_last().push(ts.last()) =~= ts);
    }
}

/// Siblings, each with `new` as the children of the directory at `target`.
pub open spec fn each_with(ts: Seq<Tree>, target: Seq<char>, new: Seq<Tree>) -> Seq<Tree> {
    ts.map_values(|t: Tree| with_children_in(t, target, new))
}

/// Where there is one such directory at most, it does not matter which of the siblings is looked
/// at.
proof fn lemma_put_in_each(ts: Seq<Tree>, target: Seq<char>, new: Seq<Tree>)
    requires
        dir_count(ts, target) <= 1,
    ensures
        with_children_among(ts, target, new) == each_with(ts, target, new),
    decreases ts.len(),
{
    if ts.len() == 0 {
        assert(each_with(ts, target, new) =~= ts);
    } else {
        let front = ts.drop_last();
        lemma_put_in_each(front, target, new);
        lemma_counted_is_found(front, target);
        if children_among(front, target) is Some {
            lemma_nothing_put_in(ts.last(), target, new);
        } else {
            lemma_nothing_put(front, target, new);
        }
        assert(each_with(ts, target, new) =~= each_with(front, target, new).push(
            with_children_in(ts.last(), target, new),
        ));
    }
}

proof fn lemma_only_holder(ts: Seq<Tree>, i: int, target: Seq<char>)
    requires
        0 <= i < ts.len(),
        dir_count(ts, target) <= 1,
        children_in(ts[i], target) is Some,
    ensures
        children_among(ts, target) == children_in(ts[i], target),
    decreases ts.len(),
{
    let front = ts.drop_last();
    lemma_counted_is_found_in(ts[i], target);
    lemma_counted_is_found(front, target);
    if i < ts.len() - 1 {
        lemma_only_holder(front, i, target);
    }
}

/// Putting children in directories inside siblings does not change how these compare.
proof fn lemma_same_label(t: Tree, target: Seq<char>, new: Seq<Tree>)
    ensures
        with_children_in(t, target, new).name() == t.name(),
        (with_children_in(t, target, new) is Dir) == (t is Dir),
{
}

/// An order in which only names, and what is a directory, count.
pub open spec fn goes_by_label(le: spec_fn(Tree, Tree) -> bool) -> bool {
    forall|a: Tree, b: Tree, c: Tree, d: Tree|
        #![trigger le(a, b), le(c, d)]
        a.name() == c.name() && b.name() == d.name() && (a is Dir) == (c is Dir) && (b is Dir) == (
        d is Dir) ==> le(a, b) == le(c, d)
}

proof fn lemma_inserting_into_each(
    s: Seq<Tree>,
    x: Tree,
    le: spec_fn(Tree, Tree) -> bool,
    target: Seq<char>,
    new: Seq<Tree>,
)
    requires
        goes_by_label(le),
    ensures
        inserted(each_with(s, target, new), with_children_in(x, target, new), le) == each_with(
            inserted(s, x, le),
            target,
            new,
        ),
    decreases s.len(),
{
    let each = each_with(s, target, new);
    let y = with_children_in(x, target, new);
    lemma_same_label(x, target, new);
    if s.len() == 0 {
        assert(inserted(each, y, le) =~= each_with(inserted(s, x, le), target, new));
    } else {
        lemma_same_label(s.last(), target, new);
        assert(each.last() == with_children_in(s.last(), target, new));
        assert(le(s.last(), x) == le(each.last(), y));
        assert(each.drop_last() =~= each_with(s.drop_last(), target, new));
        if !le(s.last(), x) {
            lemma_inserting_into_each(s.drop_last(), x, le, target, new);
        }
        assert(inserted(each, y, le) =~= each_with(inserted(s, x, le), target, new));
    }
}

proof fn lemma_sorting_each(
    s: Seq<Tree>,
    le: spec_fn(Tree, Tree) -> bool,
    target: Seq<char>,
    new: Seq<Tree>,
)
    requires
        goes_by_label(le),
    ensures
        stable_sorted(each_with(s, target, new), le) == each_with(
            stable_sorted(s, le),
            target,
            new,
        ),
    decreases s.len(),
{
    let each = each_with(s, target, new);
    if s.len() == 0 {
        assert(stable_sorted(each, le) =~= each_with(stable_sorted(s, le), target, new));
    } else {
        let front = s.drop_last();
        lemma_sorting_each(front, le, target, new);
        lemma_inserting_into_each(stable_sorted(front, le), s.last(), le, target, new);
        assert(each.drop_last() =~= each_with(front, target, new));
        assert(each.last() == with_children_in(s.last(), target, new));
    }
}

proof fn lemma_order_of_each(
    ts: Seq<Tree>,
    orders: Map<Seq<char>, Seq<Seq<char>>>,
    parent: Seq<char>,
    target: Seq<char>,
    new: Seq<Tree>,
)
    ensures
        in_order(each_with(ts, target, new), orders, parent) == each_with(
            in_order(ts, orders, parent),
            target,
            new,
        ),
{
    lemma_sorting_each(ts, by_name(), target, new);
    if orders.contains_key(parent) {
        lemma_sorting_each(
            stable_sorted(ts, by_name()),
            by_place(orders[parent]),
            target,
            new,
        );
    }
}

/// Where there is no directory at `target`, its order does not matter.
proof fn lemma_unused_order_in(
    t: Tree,
    orders: Map<Seq<char>, Seq<Seq<char>>>,
    target: Seq<char>,
    order: Seq<Seq<char>>,
)
    requires
        dir_count_in(t, target) == 0,
    ensures
        arranged(t, orders.insert(target, order)) == arranged(t, orders),
    decreases t,
{
    if let Tree::Dir { path, children, .. } = t {
        lemma_unused_order(children, orders, target, order);
    }
}

proof fn lemma_unused_order(
    ts: Seq<Tree>,
    orders: Map<Seq<char>, Seq<Seq<char>>>,
    target: Seq<char>,
    order: Seq<Seq<char>>,
)
    requires
        dir_count(ts, target) == 0,
    ensures
        all_arranged(ts, orders.insert(target, order)) == all_arranged(ts, orders),
    decreases ts,
{
    if ts.len() > 0 {
        lemma_unused_order(ts.drop_last(), orders, target, order);
        lemma_unused_order_in(ts.last(), orders, target, order);
    }
}

/// Whether `new` holds the same trees as `old_children`, where these are there.
pub open spec fn replaces(old_children: Option<Seq<Tree>>, new: Seq<Tree>) -> bool {
    old_children matches Some(c) ==> c.to_multiset() == new.to_multiset()
}

proof fn lemma_arranged_is_among(
    ts: Seq<Tree>,
    orders: Map<Seq<char>, Seq<Seq<char>>>,
    i: int,
)
    requires
        0 <= i < ts.len(),
        arranged(ts[i], orders) is Some,
    ensures
        all_arranged(ts, orders).contains(arranged(ts[i], orders)->0),
    decreases ts.len(),
{
    let front = ts.drop_last();
    let a = arranged(ts[i], orders)->0;
    let all = all_arranged(ts, orders);
    let kept = all_arranged(front, orders);
    if i == ts.len() - 1 {
        assert(all == kept.push(a));
        assert(all.last() == a);
    } else {
        lemma_arranged_is_among(front, orders, i);
        let k = choose|k: int| 0 <= k < kept.len() && kept[k] == a;
        assert(all[k] == a);
    }
}

/// What holds of the children of a directory at `target` in the tree holds of those in each part
/// of what the tree is made from.
proof fn lemma_replaces_in_each(
    ts: Seq<Tree>,
    orders: Map<Seq<char>, Seq<Seq<char>>>,
    parent: Seq<char>,
    target: Seq<char>,
    new: Seq<Tree>,
)
    requires
        dir_count(ts, target) <= 1,
        replaces(
            children_among(in_order(all_arranged(ts, orders), orders, parent), target),
            new,
        ),
    ensures
        forall|i: int|
            0 <= i < ts.len() && arranged(#[trigger] ts[i], orders) is Some ==> replaces(
                children_in(arranged(ts[i], orders)->0, target),
                new,
            ),
{
    broadcast use vstd::seq_lib::group_to_multiset_ensures;

    let kept = all_arranged(ts, orders);
    let out = in_order(kept, orders, parent);
    lemma_order_permutes(kept, orders, parent);
    lemma_count_in_order(kept, orders, parent, target);
    lemma_count_arranged(ts, orders, target);
    assert forall|i: int|
        0 <= i < ts.len() && arranged(#[trigger] ts[i], orders) is Some implies replaces(
        children_in(arranged(ts[i], orders)->0, target),
        new,
    ) by {
        let a = arranged(ts[i], orders)->0;
        lemma_arranged_is_among(ts, orders, i);
        assert(kept.to_multiset().count(a) > 0);
        assert(out.contains(a));
        let k = choose|k: int| 0 <= k < out.len() && out[k] == a;
        if children_in(a, target) is Some {
            lemma_only_holder(out, k, target);
        }
    }
}

proof fn lemma_rebuilt_in(
    t: Tree,
    orders: Map<Seq<char>, Seq<Seq<char>>>,
    target: Seq<char>,
    new: Seq<Tree>,
)
    requires
        dir_count_in(t, target) <= 1,
        names(new).no_duplicates(),
        arranged(t, orders) matches Some(a) ==> replaces(children_in(a, target), new),
    ensures
        arranged(t, orders.insert(target, names(new))) == match arranged(t, orders) {
            Some(a) => Some(with_children_in(a, target, new)),
            None => None,
        },
    decreases t,
{
    let kept_orders = orders.insert(target, names(new));
    match t {
        Tree::File { .. } => {},
        Tree::Dir { name, path, children } => {
            let kept = all_arranged(children, orders);
            let out = in_order(kept, orders, path);
            if path == target {
                lemma_unused_order(children, orders, target, names(new));
                if kept.len() > 0 {
                    let sorted = stable_sorted(kept, by_name());
                    assert(arranged(t, orders) == Some(Tree::Dir { name, path, children: out }));
                    lemma_order_permutes(kept, orders, path);
                    lemma_sorting_permutes(kept, by_name());
                    lemma_kept_order_comes_back(new, sorted, orders, target);
                }
            } else if kept.len() == 0 {
                assert forall|i: int| 0 <= i < children.len() implies arranged(
                    #[trigger] children[i],
                    orders,
                ) is None by {
                    if arranged(children[i], orders) is Some {
                        lemma_arranged_is_among(children, orders, i);
                    }
                }
                lemma_rebuilt(children, orders, target, new);
            } else {
                let a = Tree::Dir { name, path, children: out };
                assert(arranged(t, orders) == Some(a));
                assert(children_in(a, target) == children_among(out, target));
                lemma_replaces_in_each(children, orders, path, target, new);
                lemma_rebuilt(children, orders, target, new);
                lemma_order_of_each(kept, orders, path, target, new);
                lemma_count_arranged(children, orders, target);
                lemma_count_in_order(kept, orders, path, target);
                lemma_put_in_each(out, target, new);
                assert(in_order(each_with(kept, target, new), kept_orders, path) == in_order(
                    each_with(kept, target, new),
                    orders,
                    path,
                ));
            }
        },
    }
}

proof fn lemma_rebuilt(
    ts: Seq<Tree>,
    orders: Map<Seq<char>, Seq<Seq<char>>>,
    target: Seq<char>,
    new: Seq<Tree>,
)
    requires
        dir_count(ts, target) <= 1,
        names(new).no_duplicates(),
        forall|i: int|
            0 <= i < ts.len() && arranged(#[trigger] ts[i], orders) is Some ==> replaces(
                children_in(arranged(ts[i], orders)->0, target),
                new,
            ),
    ensures
        all_arranged(ts, orders.insert(target, names(new))) == each_with(
            all_arranged(ts, orders),
            target,
            new,
        ),
    decreases ts,
{
    if ts.len() == 0 {
        assert(each_with(all_arranged(ts, orders), target, new) =~= seq![]);
    } else {
        let front = ts.drop_last();
        let kept = all_arranged(front, orders);
        assert forall|i: int|
            0 <= i < front.len() && arranged(#[trigger] front[i], orders) is Some implies replaces(
            children_in(arranged(front[i], orders)->0, target),
            new,
        ) by {
            assert(front[i] == ts[i]);
        }
        lemma_rebuilt(front, orders, target, new);
        assert(ts[ts.len() - 1] == ts.last());
        lemma_rebuilt_in(ts.last(), orders, target, new);
        if let Some(a) = arranged(ts.last(), orders) {
            assert(each_with(kept.push(a), target, new) =~= each_with(kept, target, new).push(
                with_children_in(a, target, new),
            ));
        }
    }
}

proof fn lemma_moved_names_differ(c: Seq<Tree>, from: int, to: int)
    requires
        0 <= from < c.len(),
        0 <= to < c.len(),
        names(c).no_duplicates(),
    ensures
        names(moved(c, from, to)).no_duplicates(),
{
    let new = names(moved(c, from, to));
    let at = |k: int|
        if k == to {
            from
        } else {
            let j = if k < to {
                k
            } else {
                k - 1
            };
            if j < from {
                j
            } else {
                j + 1
            }
        };
    assert forall|k: int| 0 <= k < new.len() implies #[trigger] new[k] == names(c)[at(k)] && 0
        <= at(k) < c.len() by {}
    assert forall|i: int, j: int| 0 <= i < new.len() && 0 <= j < new.len() && i != j implies new[i]
        != new[j] by {
        assert(new[i] == names(c)[at(i)] && new[j] == names(c)[at(j)]);
        assert(at(i) != at(j));
    }
}

/// An order that is put by hand stays. When a child of a directory was moved and its new order
/// kept, building the tree anew from what the directory on disk holds gives the tree as it was
/// left. Files and directories on one level have different names, and no two directories have
/// one path.
pub proof fn lemma_order_stays(
    listing: Seq<Tree>,
    orders: Map<Seq<char>, Seq<Seq<char>>>,
    root: Seq<char>,
    parent: Seq<char>,
    from: int,
    to: int,
)
    requires
        ({
            let ts = in_order(all_arranged(listing, orders), orders, root);
            &&& siblings(ts, root, parent) is Some
            &&& 0 <= from
            &&& 0 <= to
            &&& can_move(siblings(ts, root, parent)->0.len() as int, from, to)
            &&& names(siblings(ts, root, parent)->0).no_duplicates()
        }),
        dir_count(listing, root) == 0,
        dir_count(listing, parent) <= 1,
    ensures
        ({
            let ts = in_order(all_arranged(listing, orders), orders, root);
            let new = moved(siblings(ts, root, parent)->0, from, to);
            let kept_orders = orders.insert(parent, names(new));
            in_order(all_arranged(listing, kept_orders), kept_orders, root) == with_siblings(
                ts,
                root,
                parent,
                new,
            )
        }),
{
    let kept = all_arranged(listing, orders);
    let ts = in_order(kept, orders, root);
    let c = siblings(ts, root, parent)->0;
    let new = moved(c, from, to);
    let kept_orders = orders.insert(parent, names(new));
    lemma_moving_permutes(c, from, to);
    lemma_moved_names_differ(c, from, to);
    if parent == root {
        lemma_unused_order(listing, orders, parent, names(new));
        lemma_order_permutes(kept, orders, root);
        lemma_sorting_permutes(kept, by_name());
        lemma_kept_order_comes_back(new, stable_sorted(kept, by_name()), orders, parent);
    } else {
        lemma_replaces_in_each(listing, orders, root, parent, new);
        lemma_rebuilt(listing, orders, parent, new);
        lemma_order_of_each(kept, orders, root, parent, new);
        lemma_count_arranged(listing, orders, parent);
        lemma_count_in_order(kept, orders, root, parent);
        lemma_put_in_each(ts, parent, new);
        assert(in_order(each_with(kept, parent, new), kept_orders, root) == in_order(
            each_with(kept, parent, new),
            orders,
            root,
        ));
    }
}

} // verus!
