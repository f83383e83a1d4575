//! What holds of every tree of markdown files, and of orders put by hand.
use crate::entries::{all_file_paths, file_paths};
use crate::sorting::{
    inserted, is_sorted, is_total_preorder, lemma_sorting_is_stable, lemma_sorting_permutes,
    lemma_sorting_sorts, lemma_text_le_total, lemma_text_le_transitive, peers, stable_sorted,
    text_le,
};
use crate::text::ascii_lowered;
use crate::tree::{
    all_arranged, arranged, by_name, by_place, in_order, is_md_name, last_place, lower, names,
    ordered, place, Tree,
};
use vstd::prelude::*;
use vstd::utf8::is_ascii_chars;

verus! {

/// Any two siblings can be compared by name.
pub proof fn lemma_names_compare()
    ensures
        is_total_preorder(by_name()),
{
    let le = by_name();
    assert forall|a: Tree, b: Tree| #[trigger] le(a, b) || le(b, a) by {
        lemma_text_le_total(lower(a.name()), lower(b.name()));
    }
    assert forall|a: Tree, b: Tree, c: Tree| #[trigger] le(a, b) && #[trigger] le(b, c) implies le(
        a,
        c,
    ) by {
        if (a is Dir) == (b is Dir) && (b is Dir) == (c is Dir) {
            lemma_text_le_transitive(lower(a.name()), lower(b.name()), lower(c.name()));
        }
    }
}

/// The case of ASCII letters plays no part in the order of names.
pub proof fn lemma_case_plays_no_part(a: Tree, b: Tree)
    requires
        (a is Dir) == (b is Dir),
        is_ascii_chars(a.name()),
        is_ascii_chars(b.name()),
    ensures
        by_name()(a, b) == text_le(ascii_lowered(a.name()), ascii_lowered(b.name())),
        ascii_lowered(a.name()) == ascii_lowered(b.name()) ==> by_name()(a, b) && by_name()(b, a),
{
    lemma_text_le_total(lower(a.name()), lower(b.name()));
}

/// Siblings of a directory without an order put by hand stand with directories first, and then
/// by name.
pub proof fn lemma_siblings_sorted_by_name(
    ts: Seq<Tree>,
    orders: Map<Seq<char>, Seq<Seq<char>>>,
    parent: Seq<char>,
)
    requires
        !orders.contains_key(parent),
    ensures
        is_sorted(in_order(ts, orders, parent), by_name()),
{
    lemma_names_compare();
    lemma_sorting_sorts(ts, by_name());
}

/// Putting siblings in order keeps each of them.
pub proof fn lemma_order_permutes(
    ts: Seq<Tree>,
    orders: Map<Seq<char>, Seq<Seq<char>>>,
    parent: Seq<char>,
)
    ensures
        in_order(ts, orders, parent).len() == ts.len(),
        in_order(ts, orders, parent).to_multiset() == ts.to_multiset(),
{
    let sorted = stable_sorted(ts, by_name());
    lemma_sorting_permutes(ts, by_name());
    if orders.contains_key(parent) {
        lemma_sorting_permutes(sorted, by_place(orders[parent]));
    }
}

/// A tree that holds markdown files only, and no directory without any.
pub open spec fn is_tidy(t: Tree) -> bool
    decreases t,
{
    match t {
        Tree::File { name, .. } => is_md_name(name),
        Tree::Dir { children, .. } => children.len() > 0 && all_tidy(children),
    }
}

/// Trees that hold markdown files only, and no directory without any.
pub open spec fn all_tidy(ts: Seq<Tree>) -> bool
    decreases ts,
{
    forall|i: int| 0 <= i < ts.len() ==> is_tidy(#[trigger] ts[i])
}

/// What is kept of a directory is markdown files only, and no directory without any.
pub proof fn lemma_arranged_is_tidy(ts: Seq<Tree>, orders: Map<Seq<char>, Seq<Seq<char>>>)
    ensures
        all_tidy(all_arranged(ts, orders)),
    decreases ts,
{
    if ts.len() > 0 {
        lemma_arranged_is_tidy(ts.drop_last(), orders);
        lemma_arranged_tree_is_tidy(ts.last(), orders);
    }
}

proof fn lemma_arranged_tree_is_tidy(t: Tree, orders: Map<Seq<char>, Seq<Seq<char>>>)
    ensures
        arranged(t, orders) matches Some(a) ==> is_tidy(a),
    decreases t,
{
    if let Tree::Dir { path, children, .. } = t {
        let kept = all_arranged(children, orders);
        lemma_arranged_is_tidy(children, orders);
        lemma_order_permutes(kept, orders, path);
        lemma_same_elements_tidy(kept, in_order(kept, orders, path));
    }
}

proof fn lemma_same_elements_tidy(a: Seq<Tree>, b: Seq<Tree>)
    requires
        all_tidy(a),
        a.to_multiset() == b.to_multiset(),
    ensures
        all_tidy(b),
{
    broadcast use vstd::seq_lib::group_to_multiset_ensures;

    assert forall|i: int| 0 <= i < b.len() implies is_tidy(#[trigger] b[i]) by {
        assert(b.contains(b[i]));
        assert(b.to_multiset().count(b[i]) > 0);
        assert(a.contains(b[i]));
        let k = choose|k: int| 0 <= k < a.len() && a[k] == b[i];
        assert(is_tidy(a[k]));
    }
}

/// The tree of the directory `root` holds nothing but markdown files, and no directory without
/// any.
pub proof fn lemma_built_tree_is_tidy(
    ts: Seq<Tree>,
    orders: Map<Seq<char>, Seq<Seq<char>>>,
    root: Seq<char>,
)
    ensures
        all_tidy(in_order(all_arranged(ts, orders), orders, root)),
{
    let kept = all_arranged(ts, orders);
    lemma_arranged_is_tidy(ts, orders);
    lemma_order_permutes(kept, orders, root);
    lemma_same_elements_tidy(kept, in_order(kept, orders, root));
}

/// The paths of the markdown files in `t`, in order.
pub open spec fn md_paths(t: Tree) -> Seq<Seq<char>>
    decreases t,
{
    match t {
        Tree::File { name, path } => if is_md_name(name) {
            seq![path]
        } else {
            seq![]
        },
        Tree::Dir { children, .. } => all_md_paths(children),
    }
}

/// The paths of the markdown files in `ts`, in order.
pub open spec fn all_md_paths(ts: Seq<Tree>) -> Seq<Seq<char>>
    decreases ts,
{
    if ts.len() == 0 {
        seq![]
    } else {
        all_md_paths(ts.drop_last()) + md_paths(ts.last())
    }
}

proof fn lemma_paths_of_inserted(s: Seq<Tree>, x: Tree, le: spec_fn(Tree, Tree) -> bool)
    ensures
        all_file_paths(inserted(s, x, le)).to_multiset() == all_file_paths(s).to_multiset().add(
            file_paths(x).to_multiset(),
        ),
    decreases s.len(),
{
    let out = inserted(s, x, le);
    if s.len() == 0 || le(s.last(), x) {
        assert(out.drop_last() =~= s);
        vstd::seq_lib::lemma_multiset_commutative(all_file_paths(s), file_paths(x));
    } else {
        let front = s.drop_last();
        lemma_paths_of_inserted(front, x, le);
        assert(out.drop_last() =~= inserted(front, x, le));
        vstd::seq_lib::lemma_multiset_commutative(
            all_file_paths(inserted(front, x, le)),
            file_paths(s.last()),
        );
        vstd::seq_lib::lemma_multiset_commutative(all_file_paths(front), file_paths(s.last()));
        assert(all_file_paths(out).to_multiset() =~= all_file_paths(s).to_multiset().add(
            file_paths(x).to_multiset(),
        ));
    }
}

proof fn lemma_paths_of_sorted(s: Seq<Tree>, le: spec_fn(Tree, Tree) -> bool)
    ensures
        all_file_paths(stable_sorted(s, le)).to_multiset() == all_file_paths(s).to_multiset(),
    decreases s.len(),
{
    if s.len() > 0 {
        let front = s.drop_last();
        lemma_paths_of_sorted(front, le);
        lemma_paths_of_inserted(stable_sorted(front, le), s.last(), le);
        vstd::seq_lib::lemma_multiset_commutative(all_file_paths(front), file_paths(s.last()));
    }
}

/// Every markdown file of a directory is kept, as often as the directory holds it, and no other
/// file.
pub proof fn lemma_markdown_files_are_kept(ts: Seq<Tree>, orders: Map<Seq<char>, Seq<Seq<char>>>)
    ensures
        all_file_paths(all_arranged(ts, orders)).to_multiset() == all_md_paths(ts).to_multiset(),
    decreases ts,
{
    if ts.len() > 0 {
        let front = ts.drop_last();
        lemma_markdown_files_are_kept(front, orders);
        lemma_markdown_files_of_tree(ts.last(), orders);
        vstd::seq_lib::lemma_multiset_commutative(all_md_paths(front), md_paths(ts.last()));
        match arranged(ts.last(), orders) {
            Some(a) => {
                let out = all_arranged(front, orders).push(a);
                assert(out.drop_last() =~= all_arranged(front, orders));
                vstd::seq_lib::lemma_multiset_commutative(
                    all_file_paths(all_arranged(front, orders)),
                    file_paths(a),
                );
            },
            None => {
                assert(all_md_paths(ts) =~= all_md_paths(front));
            },
        }
    }
}

proof fn lemma_markdown_files_of_tree(t: Tree, orders: Map<Seq<char>, Seq<Seq<char>>>)
    ensures
        match arranged(t, orders) {
            Some(a) => file_paths(a).to_multiset() == md_paths(t).to_multiset(),
            None => md_paths(t) == Seq::<Seq<char>>::empty(),
        },
    decreases t,
{
    match t {
        Tree::File { .. } => {},
        Tree::Dir { path, children, .. } => {
            broadcast use vstd::seq_lib::group_to_multiset_ensures;

            let kept = all_arranged(children, orders);
            lemma_markdown_files_are_kept(children, orders);
            if kept.len() == 0 {
                assert(all_file_paths(kept) =~= seq![]);
                assert(all_md_paths(children).to_multiset().len() == 0);
                assert(all_md_paths(children) =~= seq![]);
            } else {
                let sorted = stable_sorted(kept, by_name());
                lemma_paths_of_sorted(kept, by_name());
                if orders.contains_key(path) {
                    lemma_paths_of_sorted(sorted, by_place(orders[path]));
                }
            }
        },
    }
}

/// The tree of the directory `root` holds every markdown file of the directory, each as often as
/// the directory does, and no other.
pub proof fn lemma_built_tree_keeps_files(
    ts: Seq<Tree>,
    orders: Map<Seq<char>, Seq<Seq<char>>>,
    root: Seq<char>,
)
    ensures
        all_file_paths(in_order(all_arranged(ts, orders), orders, root)).to_multiset()
            == all_md_paths(ts).to_multiset(),
{
    let kept = all_arranged(ts, orders);
    let sorted = stable_sorted(kept, by_name());
    lemma_markdown_files_are_kept(ts, orders);
    lemma_paths_of_sorted(kept, by_name());
    if orders.contains_key(root) {
        lemma_paths_of_sorted(sorted, by_place(orders[root]));
    }
}

/// Any two siblings can be compared by their places in an order.
pub proof fn lemma_places_compare(order: Seq<Seq<char>>)
    ensures
        is_total_preorder(by_place(order)),
{
}

/// Whether `order` lists `name`.
pub open spec fn lists(order: Seq<Seq<char>>, name: Seq<char>) -> bool {
    order.contains(name)
}

proof fn lemma_last_place(order: Seq<Seq<char>>, name: Seq<char>, n: int, missing: int)
    requires
        0 <= n <= order.len(),
    ensures
        ({
            let p = last_place(order, name, n, missing);
            ||| 0 <= p < n && order[p] == name
            ||| p == missing && forall|i: int| 0 <= i < n ==> #[trigger] order[i] != name
        }),
    decreases n,
{
    if n > 0 && order[n - 1] != name {
        lemma_last_place(order, name, n - 1, missing);
    }
}

/// Siblings that an order put by hand does not list come behind all that it lists, and keep the
/// order among themselves that they had.
pub proof fn lemma_unlisted_come_last(
    ts: Seq<Tree>,
    orders: Map<Seq<char>, Seq<Seq<char>>>,
    parent: Seq<char>,
)
    requires
        orders.contains_key(parent),
    ensures
        forall|i: int, j: int|
            0 <= i < j < ordered(ts, orders, parent).len() && lists(
                orders[parent],
                (#[trigger] ordered(ts, orders, parent)[j]).name(),
            ) ==> lists(orders[parent], (#[trigger] ordered(ts, orders, parent)[i]).name()),
        forall|x: Tree|
            #![trigger peers(ts, x, by_place(orders[parent]))]
            peers(ordered(ts, orders, parent), x, by_place(orders[parent])) == peers(
                ts,
                x,
                by_place(orders[parent]),
            ),
{
    let order = orders[parent];
    let le = by_place(order);
    let out = ordered(ts, orders, parent);
    lemma_places_compare(order);
    lemma_sorting_sorts(ts, le);
    assert forall|i: int, j: int|
        0 <= i < j < out.len() && lists(order, (#[trigger] out[j]).name()) implies lists(
        order,
        (#[trigger] out[i]).name(),
    ) by {
        assert(le(out[i], out[j]));
        let n = order.len() as int;
        lemma_last_place(order, out[i].name(), n, n);
        lemma_last_place(order, out[j].name(), n, n);
        let k = choose|k: int| 0 <= k < order.len() && order[k] == out[j].name();
        assert(order[k] == out[j].name());
        assert(place(order, out[j].name()) < n);
        assert(order[place(order, out[i].name())] == out[i].name());
    }
    assert forall|x: Tree| peers(out, x, le) == #[trigger] peers(ts, x, le) by {
        lemma_sorting_is_stable(ts, x, le);
    }
}

/// The order that was put by hand comes back: whatever order the same siblings are met in, they
/// are put in the order that was kept. Siblings have names that differ.
pub proof fn lemma_kept_order_comes_back(
    kept: Seq<Tree>,
    met: Seq<Tree>,
    orders: Map<Seq<char>, Seq<Seq<char>>>,
    parent: Seq<char>,
)
    requires
        names(kept).no_duplicates(),
        met.to_multiset() == kept.to_multiset(),
    ensures
        ordered(met, orders.insert(parent, names(kept)), parent) == kept,
{
    broadcast use vstd::seq_lib::group_to_multiset_ensures;

    let order = names(kept);
    let le = by_place(order);
    let out = stable_sorted(met, le);
    let n = kept.len() as int;
    lemma_places_compare(order);
    lemma_sorting_sorts(met, le);
    lemma_sorting_permutes(met, le);
    assert forall|k: int| 0 <= k < n implies place(order, (#[trigger] kept[k]).name()) == k by {
        lemma_last_place(order, kept[k].name(), n, n);
        assert(order[k] == kept[k].name());
        let p = place(order, kept[k].name());
        assert(order[p] == order[k]);
    }
    assert(kept.no_duplicates()) by {
        assert forall|i: int, j: int| 0 <= i < kept.len() && 0 <= j < kept.len() && i != j implies
            kept[i] != kept[j] by {
            assert(order[i] != order[j]);
        }
    }
    kept.lemma_multiset_has_no_duplicates();
    out.lemma_multiset_has_no_duplicates_conv();
    assert(out.len() == n) by {
        assert(out.to_multiset().len() == kept.to_multiset().len());
    }
    assert forall|k: int| 0 <= k < n implies {
        let p = place(order, (#[trigger] out[k]).name());
        0 <= p < n && kept[p] == out[k]
    } by {
        assert(out.contains(out[k]));
        assert(out.to_multiset().count(out[k]) > 0);
        assert(kept.contains(out[k]));
        let m = choose|m: int| 0 <= m < kept.len() && kept[m] == out[k];
        assert(place(order, kept[m].name()) == m);
    }
    assert forall|i: int, j: int| 0 <= i < j < n implies place(order, (#[trigger] out[i]).name())
        < place(order, (#[trigger] out[j]).name()) by {
        assert(le(out[i], out[j]));
        assert(out[i] != out[j]);
    }
    let f = Seq::new(n as nat, |k: int| place(order, out[k].name()));
    assert forall|i: int, j: int| 0 <= i < j < n implies #[trigger] f[i] < #[trigger] f[j] by {
        assert(place(order, out[i].name()) < place(order, out[j].name()));
    }
    assert forall|k: int| 0 <= k < n implies 0 <= #[trigger] f[k] < n by {
        assert(place(order, out[k].name()) < n);
    }
    lemma_increasing_is_identity(f);
    assert forall|k: int| 0 <= k < n implies out[k] == kept[k] by {
        assert(f[k] == k);
    }
    assert(out =~= kept);
}

proof fn lemma_increasing_is_identity(f: Seq<int>)
    requires
        forall|i: int, j: int| 0 <= i < j < f.len() ==> #[trigger] f[i] < #[trigger] f[j],
        forall|k: int| 0 <= k < f.len() ==> 0 <= #[trigger] f[k] < f.len(),
    ensures
        forall|k: int| 0 <= k < f.len() ==> #[trigger] f[k] == k,
{
    assert forall|k: int| 0 <= k < f.len() implies #[trigger] f[k] == k by {
        lemma_increasing_from_below(f, k);
        lemma_increasing_from_above(f, k);
    }
}

proof fn lemma_increasing_from_below(f: Seq<int>, k: int)
    requires
        0 <= k < f.len(),
        forall|i: int, j: int| 0 <= i < j < f.len() ==> #[trigger] f[i] < #[trigger] f[j],
        forall|k: int| 0 <= k < f.len() ==> 0 <= #[trigger] f[k] < f.len(),
    ensures
        f[k] >= k,
    decreases k,
{
    if k > 0 {
        lemma_increasing_from_below(f, k - 1);
        assert(f[k - 1] < f[k]);
    }
}

proof fn lemma_increasing_from_above(f: Seq<int>, k: int)
    requires
        0 <= k < f.len(),
        forall|i: int, j: int| 0 <= i < j < f.len() ==> #[trigger] f[i] < #[trigger] f[j],
        forall|k: int| 0 <= k < f.len() ==> 0 <= #[trigger] f[k] < f.len(),
    ensures
        f[k] <= k,
    decreases f.len() - k,
{
    if k < f.len() - 1 {
        lemma_increasing_from_above(f, k + 1);
        assert(f[k] < f[k + 1]);
    }
}

} // verus!
