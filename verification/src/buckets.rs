//! Items gathered by a key.

use vstd::multiset::Multiset;
use vstd::prelude::*;

use crate::order::{
    larger_first, lemma_ordered_complete, lemma_ordered_distinct, lemma_reordered_multiset, order_larger_first, ordered, reorder, reordered, reversed,
};

verus! {

/// Items that share a key.
#[derive(Debug)]
pub struct Bucket<T> {
    pub key: u64,
    pub items: Vec<T>,
}

/// `buckets` hold the items by key, the largest key first: each item once, in
/// the bucket of its key.
pub open spec fn bucketed<T>(buckets: Seq<Bucket<T>>, items: Seq<T>, keys: Seq<u64>) -> bool {
    &&& forall|k: int, i: int|
        0 <= k < buckets.len() && 0 <= i < buckets[k].items@.len() ==> came_from(
            #[trigger] buckets[k].items@[i],
            buckets[k].key,
            items,
            keys,
        )
    &&& forall|a: int| 0 <= a < items.len() ==> filed(buckets, #[trigger] items[a], keys[a])
    &&& forall|k: int, l: int| 0 <= k < l < buckets.len() ==> (#[trigger] buckets[k]).key > (#[trigger] buckets[l]).key
    &&& forall|k: int|
        0 <= k < buckets.len() ==> (#[trigger] buckets[k]).items@.len() <= keys.to_multiset().count(buckets[k].key)
    &&& forall|k: int| 0 <= k < buckets.len() ==> (#[trigger] buckets[k]).items@.len() <= items.len()
}

/// The items of all buckets together, each as often as it stands in them.
pub open spec fn held<T>(buckets: Seq<Bucket<T>>) -> Multiset<T>
    decreases buckets.len(),
{
    if buckets.len() == 0 {
        Multiset::empty()
    } else {
        held(buckets.drop_last()).add(buckets.last().items@.to_multiset())
    }
}

/// `item` stands in the bucket of `key`.
pub open spec fn filed<T>(buckets: Seq<Bucket<T>>, item: T, key: u64) -> bool {
    exists|k: int| 0 <= k < buckets.len() && (#[trigger] buckets[k]).key == key && buckets[k].items@.contains(item)
}

/// `item` is one of the items, and `key` is its key.
pub open spec fn came_from<T>(item: T, key: u64, items: Seq<T>, keys: Seq<u64>) -> bool {
    exists|a: int| 0 <= a < items.len() && #[trigger] items[a] == item && keys[a] == key
}

/// Where the bucket at `k` ends among the sorted items.
pub open spec fn bucket_end(starts: Seq<int>, k: int, n: int) -> int {
    if k + 1 < starts.len() {
        starts[k + 1]
    } else {
        n
    }
}

/// The buckets cut the first `n` sorted items into runs of equal keys.
pub open spec fn cut<T>(buckets: Seq<Bucket<T>>, starts: Seq<int>, sorted: Seq<T>, keys: Seq<u64>, n: int) -> bool {
    &&& starts.len() == buckets.len()
    &&& n > 0 ==> starts.len() > 0 && starts[0] == 0
    &&& n == 0 ==> starts.len() == 0
    &&& forall|k: int|
        0 <= k < buckets.len() ==> 0 <= #[trigger] starts[k] < bucket_end(starts, k, n) <= n && buckets[k].items@
            == sorted.subrange(starts[k], bucket_end(starts, k, n))
    &&& forall|k: int, p: int|
        0 <= k < buckets.len() && starts[k] <= p < bucket_end(starts, k, n) ==> #[trigger] keys[p] == (
        #[trigger] buckets[k]).key
    &&& forall|k: int, l: int| 0 <= k < l < buckets.len() ==> (#[trigger] buckets[k]).key > (#[trigger] buckets[l]).key
    &&& n > 0 ==> buckets.last().key == keys[n - 1]
}

proof fn lemma_cut_covers<T>(buckets: Seq<Bucket<T>>, starts: Seq<int>, sorted: Seq<T>, keys: Seq<u64>, n: int, p: int)
    requires
        cut(buckets, starts, sorted, keys, n),
        0 <= p < n,
    ensures
        exists|k: int| 0 <= k < buckets.len() && #[trigger] starts[k] <= p < bucket_end(starts, k, n),
{
    lemma_cut_covers_from(buckets, starts, sorted, keys, n, p, 0);
}

proof fn lemma_cut_covers_from<T>(
    buckets: Seq<Bucket<T>>,
    starts: Seq<int>,
    sorted: Seq<T>,
    keys: Seq<u64>,
    n: int,
    p: int,
    k: int,
)
    requires
        cut(buckets, starts, sorted, keys, n),
        0 <= k < buckets.len(),
        starts[k] <= p < n,
    ensures
        exists|k: int| 0 <= k < buckets.len() && #[trigger] starts[k] <= p < bucket_end(starts, k, n),
    decreases buckets.len() - k,
{
    if p >= bucket_end(starts, k, n) {
        lemma_cut_covers_from(buckets, starts, sorted, keys, n, p, k + 1);
    }
}

proof fn lemma_run(keys: Seq<u64>, from: int, to: int, key: u64)
    requires
        0 <= from <= to <= keys.len(),
        forall|p: int| from <= p < to ==> #[trigger] keys[p] == key,
    ensures
        to - from <= keys.take(to).to_multiset().count(key),
    decreases to - from,
{
    broadcast use vstd::seq_lib::group_to_multiset_ensures;

    if from < to {
        lemma_run(keys, from, to - 1, key);
        assert(keys.take(to) =~= keys.take(to - 1).push(key));
    }
}

proof fn lemma_front_count(keys: Seq<u64>, to: int, key: u64)
    requires
        0 <= to <= keys.len(),
    ensures
        keys.take(to).to_multiset().count(key) <= keys.to_multiset().count(key),
    decreases keys.len() - to,
{
    broadcast use vstd::seq_lib::group_to_multiset_ensures;

    if to < keys.len() {
        lemma_front_count(keys, to + 1, key);
        assert(keys.take(to + 1) =~= keys.take(to).push(keys[to]));
    } else {
        assert(keys.take(to) =~= keys);
    }
}

proof fn lemma_cut_extend<T>(
    before: Seq<Bucket<T>>,
    now: Seq<Bucket<T>>,
    starts: Seq<int>,
    sorted: Seq<T>,
    keys: Seq<u64>,
    i: int,
)
    requires
        cut(before, starts, sorted, keys, i),
        0 <= i < sorted.len(),
        sorted.len() == keys.len(),
        before.len() > 0,
        before.last().key == keys[i],
        now.len() == before.len(),
        forall|k: int| 0 <= k < before.len() - 1 ==> #[trigger] now[k] == before[k],
        now.last().key == keys[i],
        now.last().items@ == before.last().items@.push(sorted[i]),
    ensures
        cut(now, starts, sorted, keys, i + 1),
{
    let m = before.len() as int;
    assert forall|k: int| 0 <= k < m implies #[trigger] bucket_end(starts, k, i + 1) == (if k == m - 1 {
        i + 1
    } else {
        bucket_end(starts, k, i)
    }) by {}
    assert(starts[m - 1] < bucket_end(starts, m - 1, i));
    assert(now[m - 1].items@ =~= sorted.subrange(starts[m - 1], i + 1));
    assert forall|k: int| 0 <= k < now.len() implies 0 <= #[trigger] starts[k] < bucket_end(starts, k, i + 1) <= i + 1
        && now[k].items@ == sorted.subrange(starts[k], bucket_end(starts, k, i + 1)) by {
        assert(starts[k] < bucket_end(starts, k, i));
    }
    assert forall|k: int, p: int|
        0 <= k < now.len() && starts[k] <= p < bucket_end(starts, k, i + 1) implies #[trigger] keys[p] == (
    #[trigger] now[k]).key by {
        if p < i {
            assert(p < bucket_end(starts, k, i));
            assert(keys[p] == before[k].key);
        }
    }
    assert forall|k: int, l: int| 0 <= k < l < now.len() implies (#[trigger] now[k]).key > (#[trigger] now[l]).key by {
        assert(before[k].key > before[l].key);
    }
}

proof fn lemma_cut_start<T>(
    before: Seq<Bucket<T>>,
    now: Seq<Bucket<T>>,
    starts: Seq<int>,
    sorted: Seq<T>,
    keys: Seq<u64>,
    i: int,
)
    requires
        cut(before, starts, sorted, keys, i),
        0 <= i < sorted.len(),
        sorted.len() == keys.len(),
        before.len() > 0 ==> before.last().key != keys[i] && i > 0 && keys[i - 1] >= keys[i],
        now.len() == before.len() + 1,
        forall|k: int| 0 <= k < before.len() ==> #[trigger] now[k] == before[k],
        now.last().key == keys[i],
        now.last().items@ == seq![sorted[i]],
    ensures
        cut(now, starts.push(i), sorted, keys, i + 1),
{
    let m = before.len() as int;
    let more = starts.push(i);
    assert forall|k: int| 0 <= k < m implies #[trigger] bucket_end(more, k, i + 1) == bucket_end(starts, k, i) by {}
    assert(now[m].items@ =~= sorted.subrange(i, i + 1));
    assert forall|k: int| 0 <= k < now.len() implies 0 <= #[trigger] more[k] < bucket_end(more, k, i + 1) <= i + 1
        && now[k].items@ == sorted.subrange(more[k], bucket_end(more, k, i + 1)) by {
        if k < m {
            assert(starts[k] < bucket_end(starts, k, i));
        }
    }
    assert forall|k: int, p: int|
        0 <= k < now.len() && more[k] <= p < bucket_end(more, k, i + 1) implies #[trigger] keys[p] == (
    #[trigger] now[k]).key by {
        if k < m {
            assert(p < bucket_end(starts, k, i));
            assert(keys[p] == before[k].key);
        }
    }
    assert forall|k: int, l: int| 0 <= k < l < now.len() implies (#[trigger] now[k]).key > (#[trigger] now[l]).key by {
        if l == m {
            if k < m - 1 {
                assert(before[k].key > before[m - 1].key);
            }
        } else {
            assert(before[k].key > before[l].key);
        }
    }
}

proof fn lemma_cut_origin<T>(
    made: Seq<Bucket<T>>,
    starts: Seq<int>,
    sorted: Seq<T>,
    sorted_keys: Seq<u64>,
    given: Seq<T>,
    keys: Seq<u64>,
    order: Seq<usize>,
    k: int,
    j: int,
)
    requires
        given.len() == keys.len(),
        ordered(order, 0, keys.len() as int, larger_first(keys)),
        sorted == reordered(given, order),
        sorted_keys == reordered(keys, order),
        cut(made, starts, sorted, sorted_keys, keys.len() as int),
        0 <= k < made.len(),
        0 <= j < made[k].items@.len(),
    ensures
        came_from(made[k].items@[j], made[k].key, given, keys),
{
    let n = keys.len() as int;
    let p = starts[k] + j;
    assert(made[k].items@ == sorted.subrange(starts[k], bucket_end(starts, k, n)));
    assert(made[k].items@[j] == sorted[p]);
    assert(sorted_keys[p] == made[k].key);
    assert(given[order[p] as int] == sorted[p]);
}

#[verifier::rlimit(50)]
#[verifier::spinoff_prover]
proof fn lemma_cut_filed<T>(
    made: Seq<Bucket<T>>,
    starts: Seq<int>,
    sorted: Seq<T>,
    sorted_keys: Seq<u64>,
    given: Seq<T>,
    keys: Seq<u64>,
    order: Seq<usize>,
    a: int,
)
    requires
        given.len() == keys.len() <= usize::MAX,
        ordered(order, 0, keys.len() as int, larger_first(keys)),
        sorted == reordered(given, order),
        sorted_keys == reordered(keys, order),
        cut(made, starts, sorted, sorted_keys, keys.len() as int),
        0 <= a < given.len(),
    ensures
        filed(made, given[a], keys[a]),
{
    let n = keys.len() as int;
    lemma_ordered_complete(order, n, larger_first(keys), a);
    let p = choose|p: int| 0 <= p < order.len() && #[trigger] order[p] == a;
    lemma_cut_covers(made, starts, sorted, sorted_keys, n, p);
    let k = choose|k: int| 0 <= k < made.len() && #[trigger] starts[k] <= p < bucket_end(starts, k, n);
    let j = p - starts[k];
    let items = made[k].items@;
    assert(sorted_keys[p] == made[k].key);
    assert(items == sorted.subrange(starts[k], bucket_end(starts, k, n)));
    assert(sorted[p] == given[a]);
    assert(items[j] == sorted[p]);
    assert(items.contains(given[a]));
}

proof fn lemma_cut_weight<T>(
    made: Seq<Bucket<T>>,
    starts: Seq<int>,
    sorted: Seq<T>,
    sorted_keys: Seq<u64>,
    n: int,
    k: int,
)
    requires
        n == sorted_keys.len() == sorted.len(),
        cut(made, starts, sorted, sorted_keys, n),
        0 <= k < made.len(),
    ensures
        made[k].items@.len() <= sorted_keys.to_multiset().count(made[k].key),
        made[k].items@.len() <= n,
{
    let to = bucket_end(starts, k, n);
    assert(starts[k] < to);
    assert forall|p: int| starts[k] <= p < to implies #[trigger] sorted_keys[p] == made[k].key by {}
    lemma_run(sorted_keys, starts[k], to, made[k].key);
    lemma_front_count(sorted_keys, to, made[k].key);
    assert(made[k].items@.len() == to - starts[k]);
}

proof fn lemma_cut_buckets<T>(
    made: Seq<Bucket<T>>,
    starts: Seq<int>,
    sorted: Seq<T>,
    sorted_keys: Seq<u64>,
    given: Seq<T>,
    keys: Seq<u64>,
    order: Seq<usize>,
)
    requires
        given.len() == keys.len() <= usize::MAX,
        ordered(order, 0, keys.len() as int, larger_first(keys)),
        sorted == reordered(given, order),
        sorted_keys == reordered(keys, order),
        cut(made, starts, sorted, sorted_keys, keys.len() as int),
    ensures
        bucketed(made, given, keys),
{
    lemma_reordered_multiset(keys, order, larger_first(keys));
    assert forall|k: int, j: int| 0 <= k < made.len() && 0 <= j < made[k].items@.len() implies came_from(
        #[trigger] made[k].items@[j],
        made[k].key,
        given,
        keys,
    ) by {
        lemma_cut_origin(made, starts, sorted, sorted_keys, given, keys, order, k, j);
    }
    assert forall|a: int| 0 <= a < given.len() implies filed(made, #[trigger] given[a], keys[a]) by {
        lemma_cut_filed(made, starts, sorted, sorted_keys, given, keys, order, a);
    }
    assert forall|k: int| 0 <= k < made.len() implies (#[trigger] made[k]).items@.len() <= keys.to_multiset().count(
        made[k].key,
    ) && made[k].items@.len() <= given.len() by {
        lemma_cut_weight(made, starts, sorted, sorted_keys, keys.len() as int, k);
    }
}

/// Sorts items into buckets by key.
pub fn into_buckets<T>(items: Vec<T>, keys: &Vec<u64>) -> (r: Vec<Bucket<T>>)
    requires
        items@.len() == keys@.len(),
    ensures
        bucketed(r@, items@, keys@),
        held(r@) == items@.to_multiset(),
{
    let ghost given = items@;
    let n: usize = items.len();
    let order = order_larger_first(keys);
    proof {
        lemma_ordered_distinct(order@, keys@.len() as int, larger_first(keys@));
        lemma_reordered_multiset(given, order@, larger_first(keys@));
    }
    let sorted = reorder(items, &order);
    let ghost all = sorted@;
    let ghost sorted_keys = reordered(keys@, order@);
    let mut rest = reversed(sorted);
    let mut buckets: Vec<Bucket<T>> = Vec::new();
    let ghost mut starts: Seq<int> = Seq::empty();
    let mut i: usize = 0;
    assert(all.take(0) =~= Seq::<T>::empty());
    proof {
        vstd::seq_lib::to_multiset_len(Seq::<T>::empty());
    }
    assert(held(buckets@) =~= all.take(0).to_multiset());
    while i < n
        invariant
            n == given.len() == keys@.len() == all.len() == order@.len(),
            i <= n,
            ordered(order@, 0, n as int, larger_first(keys@)),
            sorted_keys == reordered(keys@, order@),
            rest@.len() == n - i,
            forall|k: int| 0 <= k < rest@.len() ==> #[trigger] rest@[k] == all[n - 1 - k],
            cut(buckets@, starts, all, sorted_keys, i as int),
            held(buckets@) == all.take(i as int).to_multiset(),
        decreases n - i,
    {
        broadcast use vstd::seq_lib::group_to_multiset_ensures;

        let ghost before = buckets@;
        match rest.pop() {
            Some(item) => {
                assert(item == all[i as int]);
                assert(all.take(i + 1) =~= all.take(i as int).push(item));
                let key: u64 = keys[order[i]];
                assert(key == sorted_keys[i as int]);
                let m: usize = buckets.len();
                if m > 0 && buckets[m - 1].key == key {
                    let mut last = match buckets.pop() {
                        Some(last) => last,
                        None => Bucket { key, items: Vec::new() },
                    };
                    assert(last == before[m - 1]);
                    let ghost stood = last.items@;
                    last.items.push(item);
                    buckets.push(last);
                    proof {
                        assert(forall|k: int| 0 <= k < m - 1 ==> #[trigger] buckets@[k] == before[k]);
                        assert(buckets@[m - 1].items@ == stood.push(all[i as int]));
                        assert(buckets@.drop_last() =~= before.drop_last());
                        assert(held(buckets@) =~= held(before).insert(item));
                        lemma_cut_extend(before, buckets@, starts, all, sorted_keys, i as int);
                    }
                } else {
                    let mut fresh: Vec<T> = Vec::new();
                    fresh.push(item);
                    buckets.push(Bucket { key, items: fresh });
                    proof {
                        assert(forall|k: int| 0 <= k < m ==> #[trigger] buckets@[k] == before[k]);
                        assert(buckets@[m as int].items@ =~= seq![all[i as int]]);
                        assert(buckets@[m as int].items@ =~= Seq::<T>::empty().push(item));
                        assert(buckets@.drop_last() =~= before);
                        assert(held(buckets@) =~= held(before).insert(item));
                        if m > 0 {
                            assert(larger_first(keys@)(order@[i - 1] as int, order@[i as int] as int));
                        }
                        lemma_cut_start(before, buckets@, starts, all, sorted_keys, i as int);
                        starts = starts.push(i as int);
                    }
                }
            },
            None => {},
        }
        i += 1;
    }
    assert(all.take(i as int) =~= all);
    proof {
        lemma_cut_buckets(buckets@, starts, all, sorted_keys, given, keys@, order@);
    }
    buckets
}

} // verus!
