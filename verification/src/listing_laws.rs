//! What the tree of markdown files holds of a directory, and in which order.
use crate::sorting::{
    is_sorted, lemma_sorting_is_stable, lemma_sorting_sorts, peers, stable_sorted, text_le,
};
use crate::text::ascii_lowered;
use crate::tree::{
    all_arranged, arranged, by_name, by_place, in_order, is_md_name, last_place, ordered, place,
    Tree,
};
use crate::tree_laws::{
    lemma_names_compare, lemma_order_permutes, lemma_places_compare,
    lemma_siblings_sorted_by_name, lemma_unlisted_come_last, lists,
};
use vstd::prelude::*;
use vstd::utf8::is_ascii_chars;

verus! {

/// A file is a markdown file where the last three characters of its name are a dot, an `m` and a
/// `d`, in either case, whatever stands before them, and nowhere else.
pub proof fn lemma_markdown_names(s: Seq<char>, m: char, d: char, name: Seq<char>)
    requires
        m == 'm' || m == 'M',
        d == 'd' || d == 'D',
    ensures
        is_md_name(s + seq!['.', m, d]),
        is_md_name(name) ==> {
            let n = name.len() as int;
            &&& n >= 3
            &&& name[n - 3] == '.'
            &&& name[n - 2] == 'm' || name[n - 2] == 'M'
            &&& name[n - 1] == 'd' || name[n - 1] == 'D'
        },
{
    reveal_strlit(".md");
    let x = ascii_lowered(s + seq!['.', m, d]);
    assert(x.subrange(x.len() - 3, x.len() as int) =~= ".md"@);
    if is_md_name(name) {
        let low = ascii_lowered(name);
        let n = name.len() as int;
        let end = low.subrange(n - 3, n);
        assert(end == ".md"@);
        assert(end[0] == low[n - 3] && end[1] == low[n - 2] && end[2] == low[n - 1]);
        lemma_lower_letter(name[n - 3]);
        lemma_lower_letter(name[n - 2]);
        lemma_lower_letter(name[n - 1]);
    }
}

proof fn lemma_lower_letter(c: char)
    ensures
        ascii_lowered(seq![c])[0] == 'm' ==> c == 'm' || c == 'M',
        ascii_lowered(seq![c])[0] == 'd' ==> c == 'd' || c == 'D',
        ascii_lowered(seq![c])[0] == '.' ==> c == '.',
{
}

/// What is kept of several files and directories is what is kept of each, in a row.
pub proof fn lemma_kept_in_a_row(
    a: Seq<Tree>,
    b: Seq<Tree>,
    orders: Map<Seq<char>, Seq<Seq<char>>>,
)
    ensures
        all_arranged(seq![], orders) == Seq::<Tree>::empty(),
        all_arranged(a + b, orders) == all_arranged(a, orders) + all_arranged(b, orders),
    decreases b.len(),
{
    if b.len() == 0 {
        assert(a + b =~= a);
        assert(all_arranged(a, orders) + all_arranged(b, orders) =~= all_arranged(a, orders));
    } else {
        lemma_kept_in_a_row(a, b.drop_last(), orders);
        assert((a + b).drop_last() =~= a + b.drop_last());
        assert(all_arranged(a + b, orders) =~= all_arranged(a, orders) + all_arranged(b, orders));
    }
}

/// A file is kept as it is where it is a markdown file, and left out where it is none. A directory
/// is kept, with its name and its path, where anything in it is kept: that, in order, is what it
/// holds.
pub proof fn lemma_what_is_kept(
    name: Seq<char>,
    path: Seq<char>,
    children: Seq<Tree>,
    orders: Map<Seq<char>, Seq<Seq<char>>>,
)
    ensures
        ({
            let file = Tree::File { name, path };
            let dir = Tree::Dir { name, path, children };
            let inside = all_arranged(children, orders);
            &&& is_md_name(name) ==> all_arranged(seq![file], orders) == seq![file]
            &&& !is_md_name(name) ==> all_arranged(seq![file], orders) == Seq::<Tree>::empty()
            &&& inside.len() > 0 ==> all_arranged(seq![dir], orders) == seq![
                Tree::Dir { name, path, children: in_order(inside, orders, path) },
            ]
            &&& inside.len() == 0 ==> all_arranged(seq![dir], orders) == Seq::<Tree>::empty()
        }),
{
    let file = Tree::File { name, path };
    let dir = Tree::Dir { name, path, children };
    let none = Seq::<Tree>::empty();
    assert(seq![file].drop_last() =~= none && seq![dir].drop_last() =~= none);
    assert(all_arranged(none, orders) =~= none);
    assert(seq![file].last() == file && seq![dir].last() == dir);
    if is_md_name(name) {
        assert(arranged(file, orders) == Some(file));
        assert(none.push(file) =~= seq![file]);
    }
    if let Some(t) = arranged(dir, orders) {
        assert(none.push(t) =~= seq![t]);
    }
}

/// Every markdown file of a directory is in its tree, whatever stands before the extension in its
/// name, and nothing else that is a file.
pub proof fn lemma_markdown_file_is_in_tree(
    ts: Seq<Tree>,
    orders: Map<Seq<char>, Seq<Seq<char>>>,
    root: Seq<char>,
    i: int,
)
    requires
        0 <= i < ts.len(),
        ts[i] is File,
    ensures
        ({
            let name = ts[i]->File_name;
            let n = name.len() as int;
            in_order(all_arranged(ts, orders), orders, root).contains(ts[i]) == (n >= 3 && name[n
                - 3] == '.' && (name[n - 2] == 'm' || name[n - 2] == 'M') && (name[n - 1] == 'd'
                || name[n - 1] == 'D'))
        }),
{
    broadcast use vstd::seq_lib::group_to_multiset_ensures;

    let name = ts[i]->File_name;
    let n = name.len() as int;
    let kept = all_arranged(ts, orders);
    let out = in_order(kept, orders, root);
    lemma_order_permutes(kept, orders, root);
    lemma_markdown_names(seq![], 'm', 'd', name);
    if n >= 3 && name[n - 3] == '.' && (name[n - 2] == 'm' || name[n - 2] == 'M') && (name[n - 1]
        == 'd' || name[n - 1] == 'D') {
        lemma_markdown_names(name.take(n - 3), name[n - 2], name[n - 1], name);
        assert(name.take(n - 3) + seq!['.', name[n - 2], name[n - 1]] =~= name);
        let a = ts.take(i);
        let b = ts.skip(i + 1);
        assert(ts =~= a + (seq![ts[i]] + b));
        lemma_kept_in_a_row(a, seq![ts[i]] + b, orders);
        lemma_kept_in_a_row(seq![ts[i]], b, orders);
        lemma_what_is_kept(name, ts[i]->File_path, seq![], orders);
        let at = all_arranged(a, orders).len() as int;
        assert(kept[at] == ts[i]);
        assert(kept.contains(ts[i]));
        assert(kept.to_multiset().count(ts[i]) > 0);
        assert(out.to_multiset().count(ts[i]) > 0);
    } else {
        if out.contains(ts[i]) {
            assert(out.to_multiset().count(ts[i]) > 0);
            assert(kept.to_multiset().count(ts[i]) > 0);
            assert(kept.contains(ts[i]));
            let k = choose|k: int| 0 <= k < kept.len() && kept[k] == ts[i];
            lemma_kept_files_are_markdown(ts, orders, k);
        }
    }
}

proof fn lemma_kept_files_are_markdown(
    ts: Seq<Tree>,
    orders: Map<Seq<char>, Seq<Seq<char>>>,
    k: int,
)
    requires
        0 <= k < all_arranged(ts, orders).len(),
        all_arranged(ts, orders)[k] is File,
    ensures
        is_md_name(all_arranged(ts, orders)[k]->File_name),
    decreases ts.len(),
{
    let front = all_arranged(ts.drop_last(), orders);
    if k < front.len() {
        lemma_kept_files_are_markdown(ts.drop_last(), orders, k);
    } else {
        let t = arranged(ts.last(), orders)->0;
        assert(all_arranged(ts, orders)[k] == t);
        reveal_with_fuel(arranged, 2);
        match ts.last() {
            Tree::File { name, .. } => {
                assert(is_md_name(name));
            },
            Tree::Dir { .. } => {
                assert(t is Dir);
            },
        }
    }
}

/// Texts are compared by their first difference, and a text stands before those that it begins.
pub proof fn lemma_order_of_texts(p: Seq<char>, a: Seq<char>, b: Seq<char>)
    ensures
        text_le(p, p + b),
        b.len() > 0 ==> !text_le(p + b, p),
        a.len() > 0 && b.len() > 0 && a[0] != b[0] ==> text_le(p + a, p + b) == (a[0] < b[0]),
        text_le(p + a, p + b) == text_le(a, b),
    decreases p.len(),
{
    if p.len() == 0 {
        assert(p + a =~= a && p + b =~= b);
    } else {
        let rest = p.skip(1);
        lemma_order_of_texts(rest, a, b);
        assert((p + a).skip(1) =~= rest + a);
        assert((p + b).skip(1) =~= rest + b);
    }
}

/// In a directory without an order put by hand, directories stand before files, and of two files or
/// two directories with ASCII names the one whose name is smaller, upper and lower case taken as
/// the same, stands first.
pub proof fn lemma_order_in_a_directory(
    ts: Seq<Tree>,
    orders: Map<Seq<char>, Seq<Seq<char>>>,
    parent: Seq<char>,
    i: int,
    j: int,
)
    requires
        !orders.contains_key(parent),
        0 <= i < j < in_order(ts, orders, parent).len(),
    ensures
        in_order(ts, orders, parent)[i] is File ==> in_order(ts, orders, parent)[j] is File,
        ({
            let a = in_order(ts, orders, parent)[i];
            let b = in_order(ts, orders, parent)[j];
            (a is Dir) == (b is Dir) && is_ascii_chars(a.name()) && is_ascii_chars(b.name())
                ==> text_le(ascii_lowered(a.name()), ascii_lowered(b.name()))
        }),
{
    lemma_siblings_sorted_by_name(ts, orders, parent);
    let out = in_order(ts, orders, parent);
    assert(by_name()(out[i], out[j]));
}

/// An order put by hand is kept to: of two siblings that it lists, the one that it lists first
/// stands first, and one that it does not list stands behind those.
pub proof fn lemma_order_put_by_hand(
    ts: Seq<Tree>,
    orders: Map<Seq<char>, Seq<Seq<char>>>,
    parent: Seq<char>,
    p: int,
    q: int,
    i: int,
    j: int,
)
    requires
        orders.contains_key(parent),
        orders[parent].no_duplicates(),
        0 <= i < j < ordered(ts, orders, parent).len(),
        0 <= p < orders[parent].len(),
        ordered(ts, orders, parent)[j].name() == orders[parent][p],
    ensures
        orders[parent].contains(ordered(ts, orders, parent)[i].name()),
        0 <= q < orders[parent].len() && ordered(ts, orders, parent)[i].name() == orders[parent][q]
            ==> q <= p,
{
    let order = orders[parent];
    let out = ordered(ts, orders, parent);
    lemma_places_compare(order);
    lemma_sorting_sorts(ts, by_place(order));
    lemma_unlisted_come_last(ts, orders, parent);
    assert(order.contains(order[p]));
    assert(by_place(order)(out[i], out[j]));
    assert(lists(order, out[j].name()));
    assert(lists(order, out[i].name()));
    lemma_place_of_listed(order, p);
    if 0 <= q < order.len() && out[i].name() == order[q] {
        lemma_place_of_listed(order, q);
    }
}

/// The place of a name in an order that lists it once is where it is listed.
pub proof fn lemma_place_of_listed(order: Seq<Seq<char>>, k: int)
    requires
        0 <= k < order.len(),
        order.no_duplicates(),
    ensures
        place(order, order[k]) == k,
{
    lemma_last_listed(order, k, order.len() as int);
}

proof fn lemma_last_listed(order: Seq<Seq<char>>, k: int, n: int)
    requires
        0 <= k < n <= order.len(),
        order.no_duplicates(),
    ensures
        last_place(order, order[k], n, order.len() as int) == k,
    decreases n,
{
    if k < n - 1 {
        assert(order[n - 1] != order[k]);
        lemma_last_listed(order, k, n - 1);
    }
}

proof fn lemma_peers_in_order<T>(
    s: Seq<T>,
    x: T,
    le: spec_fn(T, T) -> bool,
    other: spec_fn(T, T) -> bool,
)
    requires
        is_sorted(s, other),
    ensures
        is_sorted(peers(s, x, le), other),
        forall|k: int| 0 <= k < peers(s, x, le).len() ==> s.contains(#[trigger] peers(s, x, le)[k]),
    decreases s.len(),
{
    if s.len() > 0 {
        let front = s.drop_last();
        let p = peers(front, x, le);
        assert forall|i: int, j: int| 0 <= i < j < front.len() implies other(
            #[trigger] front[i],
            #[trigger] front[j],
        ) by {
            assert(other(s[i], s[j]));
        }
        lemma_peers_in_order(front, x, le, other);
        let out = peers(s, x, le);
        assert forall|k: int| 0 <= k < out.len() implies s.contains(#[trigger] out[k]) by {
            if k < p.len() {
                assert(front.contains(p[k]));
                let m = choose|m: int| 0 <= m < front.len() && front[m] == p[k];
                assert(s[m] == out[k]);
            } else {
                assert(s[s.len() - 1] == out[k]);
            }
        }
        assert forall|i: int, j: int| 0 <= i < j < out.len() implies other(
            #[trigger] out[i],
            #[trigger] out[j],
        ) by {
            if j < p.len() {
                assert(other(p[i], p[j]));
            } else {
                assert(front.contains(p[i]));
                let m = choose|m: int| 0 <= m < front.len() && front[m] == p[i];
                assert(other(s[m], s[s.len() - 1]));
            }
        }
    }
}

proof fn lemma_places_among_peers<T>(
    s: Seq<T>,
    x: T,
    le: spec_fn(T, T) -> bool,
    i: int,
    j: int,
) -> (r: (int, int))
    requires
        0 <= i < j < s.len(),
        le(s[i], x) && le(x, s[i]),
        le(s[j], x) && le(x, s[j]),
    ensures
        0 <= r.0 < r.1 < peers(s, x, le).len(),
        peers(s, x, le)[r.0] == s[i],
        peers(s, x, le)[r.1] == s[j],
    decreases s.len(),
{
    let front = s.drop_last();
    if j < s.len() - 1 {
        lemma_places_among_peers(front, x, le, i, j)
    } else {
        let p = lemma_place_among_peers(front, x, le, i);
        (p, peers(front, x, le).len() as int)
    }
}

proof fn lemma_place_among_peers<T>(s: Seq<T>, x: T, le: spec_fn(T, T) -> bool, i: int) -> (p: int)
    requires
        0 <= i < s.len(),
        le(s[i], x) && le(x, s[i]),
    ensures
        0 <= p < peers(s, x, le).len(),
        peers(s, x, le)[p] == s[i],
    decreases s.len(),
{
    let front = s.drop_last();
    if i < s.len() - 1 {
        lemma_place_among_peers(front, x, le, i)
    } else {
        peers(front, x, le).len() as int
    }
}

/// Siblings that an order put by hand does not list stand behind those that it lists, directories
/// first and then by name.
pub proof fn lemma_order_of_the_others(
    ts: Seq<Tree>,
    orders: Map<Seq<char>, Seq<Seq<char>>>,
    parent: Seq<char>,
    i: int,
    j: int,
)
    requires
        orders.contains_key(parent),
        0 <= i < j < in_order(ts, orders, parent).len(),
        !orders[parent].contains(in_order(ts, orders, parent)[i].name()),
    ensures
        !orders[parent].contains(in_order(ts, orders, parent)[j].name()),
        by_name()(in_order(ts, orders, parent)[i], in_order(ts, orders, parent)[j]),
{
    let order = orders[parent];
    let le = by_place(order);
    let sorted = stable_sorted(ts, by_name());
    let out = in_order(ts, orders, parent);
    lemma_unlisted_come_last(sorted, orders, parent);
    assert(!lists(order, out[i].name()));
    assert(!lists(order, out[j].name()));
    lemma_names_compare();
    lemma_sorting_sorts(ts, by_name());
    lemma_places_compare(order);
    lemma_place_of_others(order, out[i].name(), order.len() as int);
    lemma_place_of_others(order, out[j].name(), order.len() as int);
    let x = out[i];
    lemma_sorting_is_stable(sorted, x, le);
    let (p, q) = lemma_places_among_peers(out, x, le, i, j);
    lemma_peers_in_order(sorted, x, le, by_name());
    let all = peers(sorted, x, le);
    assert(by_name()(all[p], all[q]));
}

/// A name that an order does not list comes behind all places in it.
pub proof fn lemma_place_of_others(order: Seq<Seq<char>>, name: Seq<char>, n: int)
    requires
        0 <= n <= order.len(),
        !order.contains(name),
    ensures
        last_place(order, name, n, order.len() as int) == order.len(),
    decreases n,
{
    if n > 0 {
        assert(order.contains(order[n - 1]));
        lemma_place_of_others(order, name, n - 1);
    }
}

} // verus!
