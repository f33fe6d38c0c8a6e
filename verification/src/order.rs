//! Stable sorting, as the order in which the items of a list are to stand.

use vstd::prelude::*;

use crate::paths::{parts, parts_view, Component, FsPath, Part};
use crate::text;
use crate::text::lex_less;

verus! {

/// The indices from `lo` up to `hi`.
pub open spec fn indices(lo: int, hi: int) -> Seq<usize> {
    Seq::new((hi - lo) as nat, |i: int| (lo + i) as usize)
}

/// `rel` tells of any two different indices which comes first.
pub open spec fn total_order(rel: spec_fn(int, int) -> bool) -> bool {
    &&& forall|a: int, b: int| #![trigger rel(a, b)] a != b ==> (rel(a, b) <==> !rel(b, a))
    &&& forall|a: int, b: int, c: int| #![trigger rel(a, b), rel(b, c)] rel(a, b) && rel(b, c) ==> rel(a, c)
}

/// `order` lists the indices from `lo` up to `hi`, each once, the first first.
pub open spec fn ordered(order: Seq<usize>, lo: int, hi: int, rel: spec_fn(int, int) -> bool) -> bool {
    &&& order.len() == hi - lo
    &&& forall|i: int| 0 <= i < order.len() ==> lo <= #[trigger] order[i] < hi
    &&& forall|i: int, j: int| 0 <= i < j < order.len() ==> rel(#[trigger] order[i] as int, #[trigger] order[j] as int)
    &&& order.to_multiset() == indices(lo, hi).to_multiset()
}

/// The larger key first; equal keys keep their order.
pub open spec fn larger_first(keys: Seq<u64>) -> spec_fn(int, int) -> bool {
    |a: int, b: int| keys[a] > keys[b] || (keys[a] == keys[b] && a < b)
}

/// The texts in order by code point; equal texts keep their order.
pub open spec fn texts_first(keys: Seq<Seq<char>>) -> spec_fn(int, int) -> bool {
    |a: int, b: int| lex_less(keys[a], keys[b]) || (keys[a] == keys[b] && a < b)
}

/// The items, in the given order.
pub open spec fn reordered<T>(items: Seq<T>, order: Seq<usize>) -> Seq<T> {
    order.map_values(|i: usize| items[i as int])
}

proof fn lemma_merge_step(a: Seq<usize>, b: Seq<usize>, x: usize)
    ensures
        (a.push(x) + b).to_multiset() == (a + b).to_multiset().insert(x),
        (a + b.push(x)).to_multiset() == (a + b).to_multiset().insert(x),
{
    broadcast use vstd::seq_lib::group_to_multiset_ensures;

    assert(a + b.push(x) =~= (a + b).push(x));
    vstd::seq_lib::lemma_multiset_commutative(a.push(x), b);
    vstd::seq_lib::lemma_multiset_commutative(a, b);
    assert(a.push(x).to_multiset() =~= a.to_multiset().insert(x));
    assert(a.push(x).to_multiset().add(b.to_multiset()) =~= a.to_multiset().add(b.to_multiset()).insert(x));
}

fn merge<F: Fn(usize, usize) -> bool>(
    a: &Vec<usize>,
    b: &Vec<usize>,
    lo: usize,
    mid: usize,
    hi: usize,
    first: &F,
    Ghost(rel): Ghost<spec_fn(int, int) -> bool>,
) -> (r: Vec<usize>)
    requires
        lo <= mid <= hi,
        total_order(rel),
        ordered(a@, lo as int, mid as int, rel),
        ordered(b@, mid as int, hi as int, rel),
        forall|x: usize, y: usize| x < hi && y < hi ==> call_requires(*first, (x, y)),
        forall|x: usize, y: usize, r: bool| call_ensures(*first, (x, y), r) ==> r == rel(x as int, y as int),
    ensures
        ordered(r@, lo as int, hi as int, rel),
{
    let mut r: Vec<usize> = Vec::new();
    let mut i: usize = 0;
    let mut j: usize = 0;
    proof {
        assert(a@.take(0) + b@.take(0) =~= Seq::<usize>::empty());
        assert(r@ =~= Seq::<usize>::empty());
    }
    while i < a.len() || j < b.len()
        invariant
            lo <= mid <= hi,
            total_order(rel),
            ordered(a@, lo as int, mid as int, rel),
            ordered(b@, mid as int, hi as int, rel),
            forall|x: usize, y: usize| x < hi && y < hi ==> call_requires(*first, (x, y)),
            forall|x: usize, y: usize, r: bool| call_ensures(*first, (x, y), r) ==> r == rel(x as int, y as int),
            i <= a@.len(),
            j <= b@.len(),
            r@.len() == i + j,
            r@.to_multiset() == (a@.take(i as int) + b@.take(j as int)).to_multiset(),
            forall|k: int| 0 <= k < r@.len() ==> lo <= #[trigger] r@[k] < hi,
            forall|k: int, l: int| 0 <= k < l < r@.len() ==> rel(#[trigger] r@[k] as int, #[trigger] r@[l] as int),
            forall|k: int, l: int|
                0 <= k < r@.len() && i <= l < a@.len() ==> rel(#[trigger] r@[k] as int, #[trigger] a@[l] as int),
            forall|k: int, l: int|
                0 <= k < r@.len() && j <= l < b@.len() ==> rel(#[trigger] r@[k] as int, #[trigger] b@[l] as int),
        decreases a@.len() - i + b@.len() - j,
    {
        broadcast use vstd::seq_lib::group_to_multiset_ensures;

        let ghost before = r@;
        let from_a = if i >= a.len() {
            false
        } else if j >= b.len() {
            true
        } else {
            first(a[i], b[j])
        };
        if from_a {
            proof {
                lemma_merge_step(a@.take(i as int), b@.take(j as int), a@[i as int]);
                assert(a@.take(i + 1) =~= a@.take(i as int).push(a@[i as int]));
                assert forall|l: int| j <= l < b@.len() implies rel(a@[i as int] as int, #[trigger] b@[l] as int) by {
                    if l > j {
                        assert(rel(b@[j as int] as int, b@[l] as int));
                    }
                }
            }
            r.push(a[i]);
            i += 1;
        } else {
            proof {
                lemma_merge_step(a@.take(i as int), b@.take(j as int), b@[j as int]);
                assert(b@.take(j + 1) =~= b@.take(j as int).push(b@[j as int]));
                assert forall|l: int| i <= l < a@.len() implies rel(b@[j as int] as int, #[trigger] a@[l] as int) by {
                    assert(rel(b@[j as int] as int, a@[i as int] as int) <==> !rel(a@[i as int] as int, b@[j as int] as int));
                    if l > i {
                        assert(rel(a@[i as int] as int, a@[l] as int));
                    }
                }
            }
            r.push(b[j]);
            j += 1;
        }
    }
    proof {
        assert(a@.take(i as int) =~= a@);
        assert(b@.take(j as int) =~= b@);
        vstd::seq_lib::lemma_multiset_commutative(a@, b@);
        vstd::seq_lib::lemma_multiset_commutative(indices(lo as int, mid as int), indices(mid as int, hi as int));
        assert(indices(lo as int, hi as int) =~= indices(lo as int, mid as int) + indices(mid as int, hi as int));
    }
    r
}

fn sort_range<F: Fn(usize, usize) -> bool>(
    lo: usize,
    hi: usize,
    first: &F,
    Ghost(rel): Ghost<spec_fn(int, int) -> bool>,
) -> (r: Vec<usize>)
    requires
        lo <= hi,
        total_order(rel),
        forall|x: usize, y: usize| x < hi && y < hi ==> call_requires(*first, (x, y)),
        forall|x: usize, y: usize, r: bool| call_ensures(*first, (x, y), r) ==> r == rel(x as int, y as int),
    ensures
        ordered(r@, lo as int, hi as int, rel),
    decreases hi - lo,
{
    if hi - lo <= 1 {
        let mut r: Vec<usize> = Vec::new();
        if lo < hi {
            r.push(lo);
        }
        assert(r@ =~= indices(lo as int, hi as int));
        r
    } else {
        let mid: usize = lo + (hi - lo) / 2;
        let a = sort_range(lo, mid, first, Ghost(rel));
        let b = sort_range(mid, hi, first, Ghost(rel));
        merge(&a, &b, lo, mid, hi, first, Ghost(rel))
    }
}

/// The order that puts the largest key first.
pub fn order_larger_first(keys: &Vec<u64>) -> (r: Vec<usize>)
    ensures
        ordered(r@, 0, keys@.len() as int, larger_first(keys@)),
{
    let first = |a: usize, b: usize| -> (r: bool)
        requires
            a < keys@.len(),
            b < keys@.len(),
        ensures
            r == larger_first(keys@)(a as int, b as int),
        { keys[a] > keys[b] || (keys[a] == keys[b] && a < b) };
    sort_range(0, keys.len(), &first, Ghost(larger_first(keys@)))
}

proof fn lemma_lex_less_irreflexive(a: Seq<char>)
    ensures
        !lex_less(a, a),
    decreases a.len(),
{
    if a.len() > 0 {
        lemma_lex_less_irreflexive(a.drop_first());
    }
}

/// Code-point order is total: of two different texts exactly one is less.
pub proof fn lemma_lex_less_total(a: Seq<char>, b: Seq<char>)
    ensures
        a != b ==> (lex_less(a, b) <==> !lex_less(b, a)),
        !lex_less(a, a),
    decreases a.len() + b.len(),
{
    lemma_lex_less_irreflexive(a);
    if a.len() > 0 && b.len() > 0 && a[0] == b[0] {
        lemma_lex_less_total(a.drop_first(), b.drop_first());
        if a.drop_first() == b.drop_first() {
            assert(a =~= seq![a[0]] + a.drop_first());
            assert(b =~= seq![b[0]] + b.drop_first());
        }
    } else if a.len() == 0 && b.len() == 0 {
        assert(a =~= b);
    }
}

/// Code-point order is transitive.
pub proof fn lemma_lex_less_trans(a: Seq<char>, b: Seq<char>, c: Seq<char>)
    requires
        lex_less(a, b),
        lex_less(b, c),
    ensures
        lex_less(a, c),
    decreases a.len(),
{
    if a.len() > 0 && a[0] == b[0] && b[0] == c[0] {
        lemma_lex_less_trans(a.drop_first(), b.drop_first(), c.drop_first());
    }
}

/// The order of texts is total.
pub proof fn lemma_texts_first_total(keys: Seq<Seq<char>>)
    ensures
        total_order(texts_first(keys)),
{
    let rel = texts_first(keys);
    assert forall|a: int, b: int| #![trigger rel(a, b)] a != b implies (rel(a, b) <==> !rel(b, a)) by {
        lemma_lex_less_total(keys[a], keys[b]);
    }
    assert forall|a: int, b: int, c: int| #![trigger rel(a, b), rel(b, c)] rel(a, b) && rel(b, c) implies rel(a, c) by {
        if lex_less(keys[a], keys[b]) && lex_less(keys[b], keys[c]) {
            lemma_lex_less_trans(keys[a], keys[b], keys[c]);
        }
    }
}

/// The order that puts the texts in order by code point.
pub fn order_by_text(keys: &Vec<String>) -> (r: Vec<usize>)
    ensures
        ordered(r@, 0, keys@.len() as int, texts_first(keys@.map_values(|s: String| s@))),
{
    let ghost all = keys@.map_values(|s: String| s@);
    let ghost rel = texts_first(all);
    proof {
        lemma_texts_first_total(all);
    }
    let first = |a: usize, b: usize| -> (r: bool)
        requires
            a < keys@.len(),
            b < keys@.len(),
        ensures
            r == texts_first(keys@.map_values(|s: String| s@))(a as int, b as int),
        { text::less(keys[a].as_str(), keys[b].as_str()) || (keys[a] == keys[b] && a < b) };
    sort_range(0, keys.len(), &first, Ghost(rel))
}

/// The larger key first; among equal keys the texts in order by code point.
pub open spec fn larger_then_text(keys: Seq<u64>, names: Seq<Seq<char>>) -> spec_fn(int, int) -> bool {
    |a: int, b: int| keys[a] > keys[b] || (keys[a] == keys[b] && texts_first(names)(a, b))
}

/// That order is total, and puts nothing before itself.
pub proof fn lemma_larger_then_text_total(keys: Seq<u64>, names: Seq<Seq<char>>)
    ensures
        total_order(larger_then_text(keys, names)),
        forall|a: int| !#[trigger] larger_then_text(keys, names)(a, a),
{
    lemma_texts_first_total(names);
    let rel = larger_then_text(keys, names);
    let inner = texts_first(names);
    assert forall|a: int| !#[trigger] rel(a, a) by {
        lemma_lex_less_total(names[a], names[a]);
    }
    assert forall|a: int, b: int| #![trigger rel(a, b)] a != b implies (rel(a, b) <==> !rel(b, a)) by {
        assert(inner(a, b) <==> !inner(b, a));
    }
    assert forall|a: int, b: int, c: int| #![trigger rel(a, b), rel(b, c)] rel(a, b) && rel(b, c) implies rel(a, c) by {
        if keys[a] == keys[b] && keys[b] == keys[c] {
            assert(inner(a, b) && inner(b, c));
        }
    }
}

/// The order that puts the largest key first, and equal keys by their texts.
pub fn order_larger_then_text(keys: &Vec<u64>, names: &Vec<String>) -> (r: Vec<usize>)
    requires
        keys@.len() == names@.len(),
    ensures
        ordered(r@, 0, keys@.len() as int, larger_then_text(keys@, names@.map_values(|s: String| s@))),
{
    let ghost all = names@.map_values(|s: String| s@);
    let ghost rel = larger_then_text(keys@, all);
    proof {
        lemma_larger_then_text_total(keys@, all);
    }
    let first = |a: usize, b: usize| -> (r: bool)
        requires
            a < keys@.len(),
            b < keys@.len(),
            keys@.len() == names@.len(),
        ensures
            r == larger_then_text(keys@, names@.map_values(|s: String| s@))(a as int, b as int),
        {
            keys[a] > keys[b] || (keys[a] == keys[b] && (text::less(names[a].as_str(), names[b].as_str()) || (names[a]
                == names[b] && a < b)))
        };
    sort_range(0, keys.len(), &first, Ghost(rel))
}

/// Puts the items in the given order.
pub fn reorder<T>(items: Vec<T>, order: &Vec<usize>) -> (r: Vec<T>)
    requires
        order@.len() == items@.len(),
        forall|i: int| 0 <= i < order@.len() ==> #[trigger] order@[i] < items@.len(),
        forall|i: int, j: int| 0 <= i < j < order@.len() ==> #[trigger] order@[i] != #[trigger] order@[j],
    ensures
        r@ == reordered(items@, order@),
{
    let ghost all = items@;
    let n: usize = items.len();
    let mut rest = items;
    let mut slots: Vec<Option<T>> = Vec::new();
    while rest.len() > 0
        invariant
            n == all.len(),
            rest@.len() + slots@.len() == n,
            rest@ == all.take(rest@.len() as int),
            forall|k: int| 0 <= k < slots@.len() ==> #[trigger] slots@[k] == Some(all[n - 1 - k]),
        decreases rest@.len(),
    {
        let item = rest.pop();
        slots.push(item);
    }
    let mut r: Vec<T> = Vec::new();
    let mut i: usize = 0;
    while i < n
        invariant
            n == all.len(),
            i <= n,
            slots@.len() == n,
            order@.len() == n,
            forall|i: int| 0 <= i < order@.len() ==> #[trigger] order@[i] < n,
            forall|i: int, j: int| 0 <= i < j < order@.len() ==> #[trigger] order@[i] != #[trigger] order@[j],
            forall|k: int| i <= k < n ==> slots@[n - 1 - #[trigger] order@[k]] == Some(all[order@[k] as int]),
            r@ == reordered(all, order@.take(i as int)),
        decreases n - i,
    {
        let at: usize = order[i];
        let ghost before = slots@;
        let item = slots[n - 1 - at].take();
        assert(slots@ =~= before.update(n - 1 - at, None));
        match item {
            Some(item) => {
                r.push(item);
            },
            None => {},
        }
        assert(r@ =~= reordered(all, order@.take(i + 1)));
        i += 1;
    }
    assert(order@.take(i as int) =~= order@);
    r
}

/// The numbers of a list, added up.
pub open spec fn sum(keys: Seq<u64>) -> nat
    decreases keys.len(),
{
    if keys.len() == 0 {
        0
    } else {
        sum(keys.drop_last()) + keys.last() as nat
    }
}

/// Taking a number out of a list takes it off the sum.
pub proof fn lemma_sum_remove(keys: Seq<u64>, i: int)
    requires
        0 <= i < keys.len(),
    ensures
        sum(keys) == sum(keys.remove(i)) + keys[i] as nat,
    decreases keys.len(),
{
    if i == keys.len() - 1 {
        assert(keys.remove(i) =~= keys.drop_last());
    } else {
        lemma_sum_remove(keys.drop_last(), i);
        assert(keys.remove(i).drop_last() =~= keys.drop_last().remove(i));
    }
}

/// The front of a list adds up to no more than the list.
pub proof fn lemma_sum_take(keys: Seq<u64>, i: int)
    requires
        0 <= i <= keys.len(),
    ensures
        sum(keys.take(i)) <= sum(keys),
        i < keys.len() ==> sum(keys.take(i + 1)) == sum(keys.take(i)) + keys[i] as nat,
    decreases keys.len() - i,
{
    if i < keys.len() {
        assert(keys.take(i + 1).drop_last() =~= keys.take(i));
        lemma_sum_take(keys, i + 1);
    } else {
        assert(keys.take(i) =~= keys);
    }
}

proof fn lemma_sum_same_indices(keys: Seq<u64>, a: Seq<usize>, b: Seq<usize>)
    requires
        a.to_multiset() == b.to_multiset(),
    ensures
        sum(reordered(keys, a)) == sum(reordered(keys, b)),
    decreases a.len(),
{
    broadcast use vstd::seq_lib::group_to_multiset_ensures;

    assert(a.len() == a.to_multiset().len() == b.len());
    if a.len() > 0 {
        let x = a.last();
        assert(a[a.len() - 1] == x);
        assert(a.contains(x));
        assert(b.to_multiset().count(x) > 0);
        let i = choose|i: int| 0 <= i < b.len() && b[i] == x;
        assert(a.remove(a.len() - 1) =~= a.drop_last());
        assert(a.remove(a.len() - 1).to_multiset() =~= b.remove(i).to_multiset());
        lemma_sum_same_indices(keys, a.drop_last(), b.remove(i));
        lemma_sum_remove(reordered(keys, b), i);
        assert(reordered(keys, b).remove(i) =~= reordered(keys, b.remove(i)));
        assert(reordered(keys, a).drop_last() =~= reordered(keys, a.drop_last()));
    }
}

/// Sorting does not change a sum.
pub proof fn lemma_sum_reordered(keys: Seq<u64>, order: Seq<usize>, rel: spec_fn(int, int) -> bool)
    requires
        ordered(order, 0, keys.len() as int, rel),
        keys.len() <= usize::MAX,
    ensures
        sum(reordered(keys, order)) == sum(keys),
{
    lemma_sum_same_indices(keys, order, indices(0, keys.len() as int));
    assert(reordered(keys, indices(0, keys.len() as int)) =~= keys);
}

proof fn lemma_multiset_same_indices<T>(items: Seq<T>, a: Seq<usize>, b: Seq<usize>)
    requires
        a.to_multiset() == b.to_multiset(),
    ensures
        reordered(items, a).to_multiset() == reordered(items, b).to_multiset(),
    decreases a.len(),
{
    broadcast use vstd::seq_lib::group_to_multiset_ensures;

    assert(a.len() == a.to_multiset().len() == b.len());
    if a.len() > 0 {
        let x = a.last();
        assert(a[a.len() - 1] == x);
        assert(a.contains(x));
        assert(b.to_multiset().count(x) > 0);
        let i = choose|i: int| 0 <= i < b.len() && b[i] == x;
        assert(a.remove(a.len() - 1) =~= a.drop_last());
        assert(a.remove(a.len() - 1).to_multiset() =~= b.remove(i).to_multiset());
        lemma_multiset_same_indices(items, a.drop_last(), b.remove(i));
        let (p, q) = (reordered(items, a), reordered(items, b));
        assert(q.remove(i) =~= reordered(items, b.remove(i)));
        assert(p.drop_last() =~= reordered(items, a.drop_last()));
        assert(p =~= p.drop_last().push(items[x as int]));
        assert(q.remove(i).insert(i, q[i]) =~= q);
        vstd::seq_lib::to_multiset_insert(q.remove(i), i, q[i]);
    } else {
        assert(reordered(items, a) =~= reordered(items, b));
    }
}

/// Sorting keeps what it sorts.
pub proof fn lemma_reordered_multiset<T>(items: Seq<T>, order: Seq<usize>, rel: spec_fn(int, int) -> bool)
    requires
        ordered(order, 0, items.len() as int, rel),
        items.len() <= usize::MAX,
    ensures
        reordered(items, order).to_multiset() == items.to_multiset(),
{
    lemma_multiset_same_indices(items, order, indices(0, items.len() as int));
    assert(reordered(items, indices(0, items.len() as int)) =~= items);
}

/// In a sorted order no index stands twice.
pub proof fn lemma_ordered_distinct(order: Seq<usize>, n: int, rel: spec_fn(int, int) -> bool)
    requires
        ordered(order, 0, n, rel),
        total_order(rel),
        forall|a: int| !#[trigger] rel(a, a),
    ensures
        forall|i: int, j: int| 0 <= i < j < order.len() ==> #[trigger] order[i] != #[trigger] order[j],
{
}

/// A sorted order leaves no index out.
pub proof fn lemma_ordered_complete(order: Seq<usize>, n: int, rel: spec_fn(int, int) -> bool, k: int)
    requires
        ordered(order, 0, n, rel),
        0 <= k < n <= usize::MAX,
    ensures
        exists|i: int| 0 <= i < order.len() && #[trigger] order[i] == k,
{
    broadcast use vstd::seq_lib::group_to_multiset_ensures;

    let all = indices(0, n);
    assert(all[k] == k as usize);
    assert(all.contains(k as usize));
    assert(order.to_multiset().count(k as usize) > 0);
    assert(order.contains(k as usize));
}

/// There is one sorted order only.
pub proof fn lemma_ordered_unique(a: Seq<usize>, b: Seq<usize>, n: int, rel: spec_fn(int, int) -> bool)
    requires
        ordered(a, 0, n, rel),
        ordered(b, 0, n, rel),
        n <= usize::MAX,
        total_order(rel),
        forall|i: int| !#[trigger] rel(i, i),
    ensures
        a == b,
{
    lemma_ordered_distinct(a, n, rel);
    lemma_ordered_distinct(b, n, rel);
    assert forall|k: int| 0 <= k < n && (forall|j: int| 0 <= j < k ==> a[j] == b[j]) implies #[trigger] a[k] == b[k] by {
        if a[k] != b[k] {
            lemma_ordered_complete(a, n, rel, b[k] as int);
            let p = choose|p: int| 0 <= p < a.len() && a[p] == b[k] as int;
            assert(p > k) by {
                if p < k {
                    assert(a[p] == b[p]);
                }
            }
            lemma_ordered_complete(b, n, rel, a[k] as int);
            let q = choose|q: int| 0 <= q < b.len() && b[q] == a[k] as int;
            assert(q > k) by {
                if q < k {
                    assert(a[q] == b[q]);
                }
            }
            assert(rel(a[k] as int, a[p] as int));
            assert(rel(b[k] as int, b[q] as int));
        }
    }
    lemma_equal_from_front(a, b, n);
    assert(a =~= b);
}

proof fn lemma_equal_from_front(a: Seq<usize>, b: Seq<usize>, n: int)
    requires
        0 <= n <= a.len(),
        n <= b.len(),
        forall|k: int| 0 <= k < n && (forall|j: int| 0 <= j < k ==> a[j] == b[j]) ==> #[trigger] a[k] == b[k],
    ensures
        forall|k: int| 0 <= k < n ==> a[k] == b[k],
    decreases n,
{
    if n > 0 {
        lemma_equal_from_front(a, b, n - 1);
    }
}

/// The order that puts the larger key first; equal keys keep their order.
pub open spec fn largest_order(keys: Seq<u64>) -> Seq<usize> {
    choose|order: Seq<usize>| ordered(order, 0, keys.len() as int, larger_first(keys))
}

/// Where an index that is not yet listed belongs in an order.
proof fn lemma_place(order: Seq<usize>, x: int, rel: spec_fn(int, int) -> bool) -> (p: int)
    requires
        total_order(rel),
        forall|i: int, j: int| 0 <= i < j < order.len() ==> rel(#[trigger] order[i] as int, #[trigger] order[j] as int),
        forall|i: int| 0 <= i < order.len() ==> #[trigger] order[i] as int != x,
    ensures
        0 <= p <= order.len(),
        forall|i: int| 0 <= i < p ==> rel(#[trigger] order[i] as int, x),
        forall|i: int| p <= i < order.len() ==> rel(x, #[trigger] order[i] as int),
    decreases order.len(),
{
    if order.len() == 0 {
        0
    } else {
        let front = order.drop_last();
        let last = order.len() - 1;
        if rel(order[last] as int, x) {
            assert forall|i: int| 0 <= i < order.len() implies rel(#[trigger] order[i] as int, x) by {
                if i < last {
                    assert(rel(order[i] as int, order[last] as int));
                }
            }
            order.len() as int
        } else {
            assert forall|i: int, j: int| 0 <= i < j < front.len() implies rel(
                #[trigger] front[i] as int,
                #[trigger] front[j] as int,
            ) by {
                assert(front[i] == order[i] && front[j] == order[j]);
            }
            assert forall|i: int| 0 <= i < front.len() implies #[trigger] front[i] as int != x by {
                assert(front[i] == order[i]);
            }
            let p = lemma_place(front, x, rel);
            assert forall|i: int| 0 <= i < p implies rel(#[trigger] order[i] as int, x) by {
                assert(front[i] == order[i]);
            }
            assert forall|i: int| p <= i < order.len() implies rel(x, #[trigger] order[i] as int) by {
                if i < last {
                    assert(front[i] == order[i]);
                }
            }
            p
        }
    }
}

proof fn lemma_some_order(n: int, rel: spec_fn(int, int) -> bool) -> (order: Seq<usize>)
    requires
        0 <= n <= usize::MAX,
        total_order(rel),
    ensures
        ordered(order, 0, n, rel),
    decreases n,
{
    broadcast use vstd::seq_lib::group_to_multiset_ensures;

    if n == 0 {
        let none = Seq::<usize>::empty();
        assert(indices(0, 0) =~= none);
        none
    } else {
        let before = lemma_some_order(n - 1, rel);
        let x = (n - 1) as usize;
        let p = lemma_place(before, n - 1, rel);
        let order = before.insert(p, x);
        assert(indices(0, n) =~= indices(0, n - 1).push(x));
        assert(order.to_multiset() =~= before.to_multiset().insert(x));
        assert forall|i: int| 0 <= i < order.len() implies 0 <= #[trigger] order[i] < n by {
            if i != p {
                assert(order[i] == before[if i < p {
                    i
                } else {
                    i - 1
                }]);
            }
        }
        assert forall|i: int, j: int| 0 <= i < j < order.len() implies rel(
            #[trigger] order[i] as int,
            #[trigger] order[j] as int,
        ) by {
            if i < p {
                assert(order[i] == before[i]);
            } else if i > p {
                assert(order[i] == before[i - 1]);
            }
            if j < p {
                assert(order[j] == before[j]);
            } else if j > p {
                assert(order[j] == before[j - 1]);
            }
        }
        order
    }
}

/// Any keys can be put in order, the largest first.
pub proof fn keys_can_be_ordered(keys: Seq<u64>)
    requires
        keys.len() <= usize::MAX,
    ensures
        ordered(largest_order(keys), 0, keys.len() as int, larger_first(keys)),
        reordered(keys, largest_order(keys)).to_multiset() == keys.to_multiset(),
{
    let rel = larger_first(keys);
    let order = lemma_some_order(keys.len() as int, rel);
    assert(ordered(order, 0, keys.len() as int, rel));
    lemma_reordered_multiset(keys, largest_order(keys), rel);
}

/// Any order that puts the larger key first is the one.
pub proof fn lemma_largest_order(order: Seq<usize>, keys: Seq<u64>)
    requires
        ordered(order, 0, keys.len() as int, larger_first(keys)),
        keys.len() <= usize::MAX,
    ensures
        order == largest_order(keys),
{
    lemma_ordered_unique(order, largest_order(keys), keys.len() as int, larger_first(keys));
}

/// Where a component stands among the others.
pub open spec fn rank(p: Part) -> int {
    match p {
        Part::Root => 0,
        Part::Current => 1,
        Part::Parent => 2,
        Part::Name(_) => 3,
    }
}

/// One component comes before another: names in order by code point.
pub open spec fn part_less(a: Part, b: Part) -> bool {
    rank(a) < rank(b) || match (a, b) {
        (Part::Name(x), Part::Name(y)) => lex_less(x, y),
        _ => false,
    }
}

/// One path comes before another, component by component.
pub open spec fn parts_less(a: Seq<Part>, b: Seq<Part>) -> bool
    decreases a.len(),
{
    if b.len() == 0 {
        false
    } else if a.len() == 0 {
        true
    } else if a[0] != b[0] {
        part_less(a[0], b[0])
    } else {
        parts_less(a.drop_first(), b.drop_first())
    }
}

proof fn lemma_part_less_total(a: Part, b: Part)
    ensures
        a != b ==> (part_less(a, b) <==> !part_less(b, a)),
        !part_less(a, a),
{
    match (a, b) {
        (Part::Name(x), Part::Name(y)) => {
            lemma_lex_less_total(x, y);
        },
        _ => {},
    }
    match a {
        Part::Name(x) => {
            lemma_lex_less_total(x, x);
        },
        _ => {},
    }
}

proof fn lemma_parts_less_irreflexive(a: Seq<Part>)
    ensures
        !parts_less(a, a),
    decreases a.len(),
{
    if a.len() > 0 {
        lemma_parts_less_irreflexive(a.drop_first());
    }
}

proof fn lemma_parts_less_total(a: Seq<Part>, b: Seq<Part>)
    ensures
        a != b ==> (parts_less(a, b) <==> !parts_less(b, a)),
        !parts_less(a, a),
    decreases a.len(),
{
    lemma_parts_less_irreflexive(a);
    if a.len() > 0 && b.len() > 0 {
        if a[0] == b[0] {
            lemma_parts_less_total(a.drop_first(), b.drop_first());
            if a.drop_first() == b.drop_first() {
                assert(a =~= seq![a[0]] + a.drop_first());
                assert(b =~= seq![b[0]] + b.drop_first());
            }
        } else {
            lemma_part_less_total(a[0], b[0]);
        }
    } else if a.len() == 0 && b.len() == 0 {
        assert(a =~= b);
    }
}

proof fn lemma_part_less_trans(a: Part, b: Part, c: Part)
    requires
        part_less(a, b),
        part_less(b, c),
    ensures
        part_less(a, c),
        a != c,
{
    match (a, b, c) {
        (Part::Name(x), Part::Name(y), Part::Name(z)) => {
            lemma_lex_less_trans(x, y, z);
            lemma_lex_less_total(x, z);
        },
        _ => {},
    }
}

proof fn lemma_parts_less_trans(a: Seq<Part>, b: Seq<Part>, c: Seq<Part>)
    requires
        parts_less(a, b),
        parts_less(b, c),
    ensures
        parts_less(a, c),
    decreases a.len(),
{
    if a.len() > 0 {
        if a[0] == b[0] && b[0] == c[0] {
            lemma_parts_less_trans(a.drop_first(), b.drop_first(), c.drop_first());
        } else if a[0] != b[0] && b[0] != c[0] {
            lemma_part_less_trans(a[0], b[0], c[0]);
        }
    }
}

/// The paths in order, component by component; equal paths keep their order.
pub open spec fn paths_first(keys: Seq<Seq<char>>) -> spec_fn(int, int) -> bool {
    |a: int, b: int| parts_less(parts(keys[a]), parts(keys[b])) || (parts(keys[a]) == parts(keys[b]) && a < b)
}

/// The order of paths is total, and puts nothing before itself.
pub proof fn lemma_paths_first_total(keys: Seq<Seq<char>>)
    ensures
        total_order(paths_first(keys)),
        forall|a: int| !#[trigger] paths_first(keys)(a, a),
{
    let rel = paths_first(keys);
    assert forall|a: int| !#[trigger] rel(a, a) by {
        lemma_parts_less_total(parts(keys[a]), parts(keys[a]));
    }
    assert forall|a: int, b: int| #![trigger rel(a, b)] a != b implies (rel(a, b) <==> !rel(b, a)) by {
        lemma_parts_less_total(parts(keys[a]), parts(keys[b]));
    }
    assert forall|a: int, b: int, c: int| #![trigger rel(a, b), rel(b, c)] rel(a, b) && rel(b, c) implies rel(a, c) by {
        if parts_less(parts(keys[a]), parts(keys[b])) && parts_less(parts(keys[b]), parts(keys[c])) {
            lemma_parts_less_trans(parts(keys[a]), parts(keys[b]), parts(keys[c]));
        }
    }
}

/// Whether one component comes before another.
fn component_less(a: &Component, b: &Component) -> (r: bool)
    ensures
        r == part_less(a@, b@),
{
    match (a, b) {
        (Component::Normal(x), Component::Normal(y)) => text::less(x.as_str(), y.as_str()),
        (Component::RootDir, Component::RootDir) => false,
        (Component::RootDir, _) => true,
        (Component::CurDir, Component::RootDir) => false,
        (Component::CurDir, Component::CurDir) => false,
        (Component::CurDir, _) => true,
        (Component::ParentDir, Component::Normal(_)) => true,
        _ => false,
    }
}

/// Whether one list of components comes before another.
fn components_less(a: &Vec<Component>, b: &Vec<Component>) -> (r: bool)
    ensures
        r == parts_less(parts_view(a@), parts_view(b@)),
{
    let ghost x = parts_view(a@);
    let ghost y = parts_view(b@);
    let mut i: usize = 0;
    assert(x.skip(0) =~= x);
    assert(y.skip(0) =~= y);
    while i < a.len() && i < b.len()
        invariant
            x == parts_view(a@),
            y == parts_view(b@),
            i <= a@.len(),
            i <= b@.len(),
            parts_less(x, y) == parts_less(x.skip(i as int), y.skip(i as int)),
        decreases a@.len() - i,
    {
        assert(x.skip(i as int)[0] == a@[i as int]@);
        assert(y.skip(i as int)[0] == b@[i as int]@);
        if !a[i].same(&b[i]) {
            return component_less(&a[i], &b[i]);
        }
        assert(x.skip(i as int).drop_first() =~= x.skip(i + 1));
        assert(y.skip(i as int).drop_first() =~= y.skip(i + 1));
        i += 1;
    }
    assert(x.skip(i as int).len() == a@.len() - i);
    assert(y.skip(i as int).len() == b@.len() - i);
    i < b.len()
}

/// The order that puts paths in order, component by component.
pub fn order_by_path(keys: &Vec<FsPath>) -> (r: Vec<usize>)
    ensures
        ordered(r@, 0, keys@.len() as int, paths_first(keys@.map_values(|p: FsPath| p@))),
{
    let ghost all = keys@.map_values(|p: FsPath| p@);
    proof {
        lemma_paths_first_total(all);
    }
    let first = |a: usize, b: usize| -> (r: bool)
        requires
            a < keys@.len(),
            b < keys@.len(),
        ensures
            r == paths_first(keys@.map_values(|p: FsPath| p@))(a as int, b as int),
        {
            let x = keys[a].components();
            let y = keys[b].components();
            components_less(&x, &y) || (keys[a].same(&keys[b]) && a < b)
        };
    sort_range(0, keys.len(), &first, Ghost(paths_first(all)))
}

/// The items, last first.
pub fn reversed<T>(items: Vec<T>) -> (r: Vec<T>)
    ensures
        r@ == items@.reverse(),
{
    let ghost all = items@;
    let mut rest = items;
    let mut r: Vec<T> = Vec::new();
    while rest.len() > 0
        invariant
            rest@.len() + r@.len() == all.len(),
            rest@ == all.take(rest@.len() as int),
            forall|k: int| 0 <= k < r@.len() ==> #[trigger] r@[k] == all[all.len() - 1 - k],
        decreases rest@.len(),
    {
        match rest.pop() {
            Some(item) => {
                r.push(item);
            },
            None => {},
        }
    }
    assert(r@ =~= all.reverse());
    r
}

/// Paths are ordered by the first name in which they differ; a place comes
/// before all that lies under it.
pub proof fn paths_differ_first_where_they_differ(same: Seq<Part>, a: Seq<Part>, b: Seq<Part>)
    ensures
        a.len() > 0 && b.len() > 0 && a[0] is Name && b[0] is Name && lex_less(a[0]->Name_0, b[0]->Name_0) ==> parts_less(
            same + a,
            same + b,
        ),
        a.len() > 0 && b.len() > 0 && a[0] is Root && b[0] is Name ==> parts_less(same + a, same + b) && !parts_less(
            same + b,
            same + a,
        ),
        a.len() > 0 ==> parts_less(same, same + a) && !parts_less(same + a, same),
        !parts_less(same, same),
    decreases same.len(),
{
    if same.len() > 0 {
        paths_differ_first_where_they_differ(same.drop_first(), a, b);
        assert((same + a).drop_first() =~= same.drop_first() + a);
        assert((same + b).drop_first() =~= same.drop_first() + b);
    } else {
        assert(same + a =~= a);
        assert(same + b =~= b);
        if a.len() > 0 && b.len() > 0 && a[0] is Name && b[0] is Name {
            lemma_lex_less_total(a[0]->Name_0, b[0]->Name_0);
            crate::text::texts_differ_first_where_they_differ(a[0]->Name_0, Seq::empty(), Seq::empty());
        }
    }
}

} // verus!
