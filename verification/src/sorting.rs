//! Stable sorting, and the order of texts.
use vstd::prelude::*;

verus! {

/// `s`, which is sorted, with `x` behind the last element that is not above it.
pub open spec fn inserted<T>(s: Seq<T>, x: T, le: spec_fn(T, T) -> bool) -> Seq<T>
    decreases s.len(),
{
    if s.len() == 0 || le(s.last(), x) {
        s.push(x)
    } else {
        inserted(s.drop_last(), x, le).push(s.last())
    }
}

/// `s` in the order `le`, where elements of the same rank keep the order that they had.
pub open spec fn stable_sorted<T>(s: Seq<T>, le: spec_fn(T, T) -> bool) -> Seq<T>
    decreases s.len(),
{
    if s.len() == 0 {
        seq![]
    } else {
        inserted(stable_sorted(s.drop_last(), le), s.last(), le)
    }
}

/// An order in which any two elements can be compared.
pub open spec fn is_total_preorder<T>(le: spec_fn(T, T) -> bool) -> bool {
    &&& forall|a: T, b: T| #[trigger] le(a, b) || le(b, a)
    &&& forall|a: T, b: T, c: T| #[trigger] le(a, b) && #[trigger] le(b, c) ==> le(a, c)
}

/// A sequence in the order `le`.
pub open spec fn is_sorted<T>(s: Seq<T>, le: spec_fn(T, T) -> bool) -> bool {
    forall|i: int, j: int| 0 <= i < j < s.len() ==> le(#[trigger] s[i], #[trigger] s[j])
}

proof fn lemma_inserted<T>(s: Seq<T>, x: T, le: spec_fn(T, T) -> bool)
    ensures
        inserted(s, x, le).len() == s.len() + 1,
        inserted(s, x, le).to_multiset() == s.to_multiset().insert(x),
        is_total_preorder(le) && is_sorted(s, le) ==> is_sorted(inserted(s, x, le), le),
    decreases s.len(),
{
    broadcast use vstd::seq_lib::group_to_multiset_ensures;

    if s.len() == 0 || le(s.last(), x) {
        if is_total_preorder(le) && is_sorted(s, le) {
            let out = s.push(x);
            assert forall|i: int, j: int| 0 <= i < j < out.len() implies le(
                #[trigger] out[i],
                #[trigger] out[j],
            ) by {
                if j == s.len() {
                    if i < s.len() - 1 {
                        assert(le(s[i], s[s.len() - 1]));
                    }
                    assert(le(s.last(), x));
                } else {
                    assert(le(s[i], s[j]));
                }
            }
        }
    } else {
        let front = s.drop_last();
        let low = inserted(front, x, le);
        lemma_inserted(front, x, le);
        assert(front.push(s.last()) =~= s);
        if is_total_preorder(le) && is_sorted(s, le) {
            assert forall|i: int, j: int| 0 <= i < j < front.len() implies le(
                #[trigger] front[i],
                #[trigger] front[j],
            ) by {
                assert(le(s[i], s[j]));
            }
            let out = low.push(s.last());
            assert forall|i: int, j: int| 0 <= i < j < out.len() implies le(
                #[trigger] out[i],
                #[trigger] out[j],
            ) by {
                if j == low.len() {
                    assert(low.to_multiset().count(low[i]) > 0) by {
                        assert(low.contains(low[i]));
                    }
                    if low[i] != x {
                        assert(front.to_multiset().count(low[i]) > 0);
                        assert(front.contains(low[i]));
                        let k = choose|k: int| 0 <= k < front.len() && front[k] == low[i];
                        assert(le(s[k], s[s.len() - 1]));
                    } else {
                        assert(le(s.last(), x) || le(x, s.last()));
                    }
                } else {
                    assert(le(low[i], low[j]));
                }
            }
        }
    }
}

/// Sorting leaves nothing out and adds nothing.
pub proof fn lemma_sorting_permutes<T>(s: Seq<T>, le: spec_fn(T, T) -> bool)
    ensures
        stable_sorted(s, le).len() == s.len(),
        stable_sorted(s, le).to_multiset() == s.to_multiset(),
    decreases s.len(),
{
    broadcast use vstd::seq_lib::group_to_multiset_ensures;

    if s.len() == 0 {
        assert(stable_sorted(s, le) =~= s);
    } else {
        lemma_sorting_permutes(s.drop_last(), le);
        lemma_inserted(stable_sorted(s.drop_last(), le), s.last(), le);
        assert(s.drop_last().push(s.last()) =~= s);
    }
}

/// Sorting puts the elements in order.
pub proof fn lemma_sorting_sorts<T>(s: Seq<T>, le: spec_fn(T, T) -> bool)
    requires
        is_total_preorder(le),
    ensures
        is_sorted(stable_sorted(s, le), le),
    decreases s.len(),
{
    if s.len() > 0 {
        lemma_sorting_sorts(s.drop_last(), le);
        lemma_inserted(stable_sorted(s.drop_last(), le), s.last(), le);
    }
}

/// The elements of `s` that have the same rank as `x`, in order.
pub open spec fn peers<T>(s: Seq<T>, x: T, le: spec_fn(T, T) -> bool) -> Seq<T>
    decreases s.len(),
{
    if s.len() == 0 {
        seq![]
    } else if le(s.last(), x) && le(x, s.last()) {
        peers(s.drop_last(), x, le).push(s.last())
    } else {
        peers(s.drop_last(), x, le)
    }
}

proof fn lemma_inserted_peers<T>(s: Seq<T>, y: T, x: T, le: spec_fn(T, T) -> bool)
    requires
        is_total_preorder(le),
        is_sorted(s, le),
    ensures
        peers(inserted(s, y, le), x, le) == peers(s.push(y), x, le),
    decreases s.len(),
{
    reveal_with_fuel(peers, 3);
    let out = inserted(s, y, le);
    if s.len() == 0 || le(s.last(), y) {
        assert(out == s.push(y));
    } else {
        let front = s.drop_last();
        let last = s.last();
        assert(out == inserted(front, y, le).push(last));
        assert forall|i: int, j: int| 0 <= i < j < front.len() implies le(
            #[trigger] front[i],
            #[trigger] front[j],
        ) by {
            assert(le(s[i], s[j]));
        }
        lemma_inserted_peers(front, y, x, le);
        assert(out.drop_last() =~= inserted(front, y, le));
        assert(out.last() == last);
        assert(s.push(y).drop_last() =~= s);
        assert(s.push(y).last() == y);
        assert(front.push(y).drop_last() =~= front);
        assert(front.push(y).last() == y);
        // `y` is below `last`, so not both of them have the rank of `x`.
        if le(y, x) && le(x, y) && le(last, x) && le(x, last) {
            assert(le(last, y));
        }
    }
}

/// Sorting keeps the order of elements of the same rank.
pub proof fn lemma_sorting_is_stable<T>(s: Seq<T>, x: T, le: spec_fn(T, T) -> bool)
    requires
        is_total_preorder(le),
    ensures
        peers(stable_sorted(s, le), x, le) == peers(s, x, le),
    decreases s.len(),
{
    if s.len() > 0 {
        let front = s.drop_last();
        lemma_sorting_is_stable(front, x, le);
        lemma_sorting_sorts(front, le);
        let sorted = stable_sorted(front, le);
        lemma_inserted_peers(sorted, s.last(), x, le);
        assert(sorted.push(s.last()).drop_last() =~= sorted);
    }
}

/// What is in order already stays as it is.
pub proof fn lemma_sorted_stays<T>(s: Seq<T>, le: spec_fn(T, T) -> bool)
    requires
        is_sorted(s, le),
    ensures
        stable_sorted(s, le) == s,
    decreases s.len(),
{
    if s.len() > 0 {
        let front = s.drop_last();
        assert forall|i: int, j: int| 0 <= i < j < front.len() implies le(
            #[trigger] front[i],
            #[trigger] front[j],
        ) by {
            assert(le(s[i], s[j]));
        }
        lemma_sorted_stays(front, le);
        if front.len() > 0 {
            assert(le(s[front.len() - 1], s[s.len() - 1]));
        }
        assert(front.push(s.last()) =~= s);
    } else {
        assert(s =~= seq![]);
    }
}

/// Whether `a` stands at or before `b` in the order of their characters' code points.
pub open spec fn text_le(a: Seq<char>, b: Seq<char>) -> bool
    decreases a.len(),
{
    if a.len() == 0 {
        true
    } else if b.len() == 0 {
        false
    } else if a[0] != b[0] {
        a[0] < b[0]
    } else {
        text_le(a.skip(1), b.skip(1))
    }
}

/// Any two texts can be compared.
pub proof fn lemma_text_le_total(a: Seq<char>, b: Seq<char>)
    ensures
        text_le(a, b) || text_le(b, a),
    decreases a.len(),
{
    if a.len() > 0 && b.len() > 0 && a[0] == b[0] {
        lemma_text_le_total(a.skip(1), b.skip(1));
    }
}

/// The order of texts is transitive.
pub proof fn lemma_text_le_transitive(a: Seq<char>, b: Seq<char>, c: Seq<char>)
    requires
        text_le(a, b),
        text_le(b, c),
    ensures
        text_le(a, c),
    decreases a.len(),
{
    if a.len() > 0 && a[0] == b[0] && b[0] == c[0] {
        lemma_text_le_transitive(a.skip(1), b.skip(1), c.skip(1));
    }
}

/// Two texts of the same rank are the same.
pub proof fn lemma_text_le_antisymmetric(a: Seq<char>, b: Seq<char>)
    requires
        text_le(a, b),
        text_le(b, a),
    ensures
        a == b,
    decreases a.len(),
{
    if a.len() > 0 {
        lemma_text_le_antisymmetric(a.skip(1), b.skip(1));
        assert(seq![a[0]] + a.skip(1) =~= a);
        assert(seq![b[0]] + b.skip(1) =~= b);
    } else {
        assert(a =~= b);
    }
}

/// Whether `a` stands at or before `b` in the order of texts.
pub fn text_at_or_before(a: &[char], b: &[char]) -> (r: bool)
    ensures
        r == text_le(a@, b@),
{
    let mut i: usize = 0;
    assert(a@.skip(0) =~= a@);
    assert(b@.skip(0) =~= b@);
    while i < a.len() && i < b.len() && a[i] == b[i]
        invariant
            i <= a.len(),
            i <= b.len(),
            text_le(a@, b@) == text_le(a@.skip(i as int), b@.skip(i as int)),
        decreases a.len() - i,
    {
        assert(a@.skip(i as int).skip(1) =~= a@.skip(i + 1));
        assert(b@.skip(i as int).skip(1) =~= b@.skip(i + 1));
        i += 1;
    }
    if i >= a.len() {
        true
    } else if i >= b.len() {
        false
    } else {
        a[i] < b[i]
    }
}

/// `items` in reverse order.
fn reversed<T>(items: Vec<T>) -> (out: Vec<T>)
    ensures
        out@.len() == items@.len(),
        forall|k: int| 0 <= k < out@.len() ==> #[trigger] out@[k] == items@[items@.len() - 1 - k],
{
    let ghost all = items@;
    let mut rest = items;
    let mut out: Vec<T> = Vec::new();
    while rest.len() > 0
        invariant
            rest@ == all.take(rest@.len() as int),
            rest@.len() + out@.len() == all.len(),
            forall|k: int| 0 <= k < out@.len() ==> #[trigger] out@[k] == all[all.len() - 1 - k],
        decreases rest@.len(),
    {
        let ghost len = rest@.len();
        let item = rest.pop().unwrap();
        assert(rest@ =~= all.take(len - 1));
        out.push(item);
    }
    out
}

/// Sorts `items` by their `keys`. Comparing keys with `le` compares the models that `model` gives
/// the items as `order` does, where `fits` tells which keys and items belong together.
pub(crate) fn sort_by_keys<K, T, M, F: Fn(&K, &K) -> bool>(
    keys: Vec<K>,
    items: Vec<T>,
    le: F,
    Ghost(fits): Ghost<spec_fn(K, T) -> bool>,
    Ghost(model): Ghost<spec_fn(T) -> M>,
    Ghost(order): Ghost<spec_fn(M, M) -> bool>,
) -> (out: Vec<T>)
    requires
        keys@.len() == items@.len(),
        forall|i: int| 0 <= i < items@.len() ==> fits(keys@[i], #[trigger] items@[i]),
        forall|a: K, b: K| #[trigger] le.requires((&a, &b)),
        forall|a: K, b: K, x: T, y: T, r: bool|
            #[trigger] fits(a, x) && #[trigger] fits(b, y) && #[trigger] le.ensures((&a, &b), r)
                ==> r == order(model(x), model(y)),
    ensures
        out@.map_values(model) == stable_sorted(items@.map_values(model), order),
{
    let ghost all = items@;
    let ghost all_keys = keys@;
    let ghost models = all.map_values(model);
    let mut items = reversed(items);
    let mut keys = reversed(keys);
    let mut out: Vec<T> = Vec::new();
    let mut ranks: Vec<K> = Vec::new();
    let ghost mut i: int = 0;
    assert(out@.map_values(model) =~= stable_sorted(models.take(0), order));
    while items.len() > 0
        invariant
            0 <= i <= all.len(),
            items@.len() == all.len() - i,
            keys@.len() == items@.len(),
            all_keys.len() == all.len(),
            models == all.map_values(model),
            forall|k: int| 0 <= k < all.len() ==> fits(all_keys[k], #[trigger] all[k]),
            forall|k: int| 0 <= k < items@.len() ==> #[trigger] items@[k] == all[all.len() - 1 - k],
            forall|k: int|
                0 <= k < keys@.len() ==> #[trigger] keys@[k] == all_keys[all.len() - 1 - k],
            forall|a: K, b: K| #[trigger] le.requires((&a, &b)),
            forall|a: K, b: K, x: T, y: T, r: bool|
                #[trigger] fits(a, x) && #[trigger] fits(b, y) && #[trigger] le.ensures((&a, &b), r)
                    ==> r == order(model(x), model(y)),
            ranks@.len() == out@.len(),
            forall|k: int| 0 <= k < out@.len() ==> fits(ranks@[k], #[trigger] out@[k]),
            out@.map_values(model) == stable_sorted(models.take(i), order),
        decreases items@.len(),
    {
        let item = items.pop().unwrap();
        let key = keys.pop().unwrap();
        let ghost before = out@.map_values(model);
        let ghost x = model(item);
        assert(item == all[i] && key == all_keys[i]);
        assert(fits(key, item));
        let mut at: usize = out.len();
        assert(before.take(at as int) =~= before);
        assert(inserted(before.take(at as int), x, order) + before.skip(at as int) =~= inserted(
            before,
            x,
            order,
        ));
        while at > 0 && !le(&ranks[at - 1], &key)
            invariant
                at <= out@.len(),
                before == out@.map_values(model),
                x == model(item),
                fits(key, item),
                ranks@.len() == out@.len(),
                forall|k: int| 0 <= k < out@.len() ==> fits(ranks@[k], #[trigger] out@[k]),
                forall|a: K, b: K| #[trigger] le.requires((&a, &b)),
                forall|a: K, b: K, x: T, y: T, r: bool|
                    #[trigger] fits(a, x) && #[trigger] fits(b, y) && #[trigger] le.ensures(
                        (&a, &b),
                        r,
                    ) ==> r == order(model(x), model(y)),
                inserted(before.take(at as int), x, order) + before.skip(at as int) == inserted(
                    before,
                    x,
                    order,
                ),
            decreases at,
        {
            proof {
                let low = before.take(at as int);
                assert(fits(ranks@[at - 1], out@[at - 1]));
                assert(low.last() == model(out@[at - 1]));
                assert(!order(low.last(), x));
                assert(low.drop_last() =~= before.take(at - 1));
                assert(inserted(before.take(at - 1), x, order) + before.skip(at - 1) =~= inserted(
                    low,
                    x,
                    order,
                ) + before.skip(at as int));
            }
            at -= 1;
        }
        proof {
            let low = before.take(at as int);
            if at > 0 {
                assert(fits(ranks@[at - 1], out@[at - 1]));
                assert(low.last() == model(out@[at - 1]));
            }
            assert(inserted(low, x, order) == low.push(x));
        }
        let ghost old_out = out@;
        let ghost old_ranks = ranks@;
        out.insert(at, item);
        ranks.insert(at, key);
        proof {
            i = i + 1;
            assert(out@.map_values(model) =~= before.take(at as int).push(x) + before.skip(
                at as int,
            ));
            assert(models.take(i).drop_last() =~= models.take(i - 1));
            assert forall|k: int| 0 <= k < out@.len() implies fits(
                ranks@[k],
                #[trigger] out@[k],
            ) by {
                if k < at {
                    assert(fits(old_ranks[k], old_out[k]));
                } else if k > at {
                    assert(fits(old_ranks[k - 1], old_out[k - 1]));
                }
            }
        }
    }
    assert(models.take(all.len() as int) =~= models);
    out
}

} // verus!
