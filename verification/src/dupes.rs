//! Duplicate file finder: groups of byte-identical files.
//!
//! The search is staged to stay cheap: only files of the same size can be
//! duplicates; among those only files with the same hash; and each such group
//! is confirmed by an exact byte comparison, so a hash collision can never
//! produce a false duplicate.

use vstd::multiset::Multiset;
use vstd::prelude::*;

use crate::buckets::{bucketed, came_from, filed, held, into_buckets, Bucket};
use crate::order;
use crate::order::{larger_first, ordered, parts_less, paths_first, reordered, reversed, sum};
use crate::paths::{parts, same_path, FsPath};

verus! {

/// A file that participates in a duplicate group.
#[derive(Debug)]
pub struct DupeFile {
    pub path: FsPath,
    pub size_bytes: u64,
}

impl Clone for DupeFile {
    fn clone(&self) -> (r: Self)
        ensures
            r == *self,
    {
        DupeFile { path: self.path.clone(), size_bytes: self.size_bytes }
    }
}

/// A set of byte-identical files.
#[derive(Debug)]
pub struct DupeGroup {
    /// The shared size of every file in the group.
    pub size_bytes: u64,
    pub files: Vec<DupeFile>,
    /// Bytes reclaimable if all but one copy are removed.
    pub reclaimable_bytes: u64,
}

/// Options bounding the duplicate search.
#[derive(Debug, Clone, Copy)]
pub struct DupeOptions {
    /// Ignore files smaller than this.
    pub min_bytes: u64,
}

impl Default for DupeOptions {
    fn default() -> (r: Self)
        ensures
            r.min_bytes == 1024 * 1024,
    {
        DupeOptions { min_bytes: 1024 * 1024 }
    }
}

/// What files hold, and what the hash of a content is.
pub struct Contents {
    pub bytes: spec_fn(Seq<char>) -> Option<Seq<u8>>,
    pub digest: spec_fn(Seq<u8>) -> u64,
}

/// Two files are byte-identical: of the same size, both readable, and with the
/// same content.
pub open spec fn identical(contents: Contents) -> spec_fn(DupeFile, DupeFile) -> bool {
    |a: DupeFile, b: DupeFile|
        a.size_bytes == b.size_bytes && (contents.bytes)(a.path@) is Some && (contents.bytes)(a.path@)
            == (contents.bytes)(b.path@)
}

/// `same` is symmetric, and transitive.
pub open spec fn equivalence(same: spec_fn(DupeFile, DupeFile) -> bool) -> bool {
    &&& forall|a: DupeFile, b: DupeFile| #[trigger] same(a, b) ==> same(b, a)
    &&& forall|a: DupeFile, b: DupeFile, c: DupeFile| #[trigger] same(a, b) && #[trigger] same(b, c) ==> same(a, c)
}

/// `groups` are the files of `input` that have a duplicate, gathered with
/// their duplicates.
pub open spec fn gathered(
    groups: Seq<Seq<DupeFile>>,
    input: Seq<DupeFile>,
    same: spec_fn(DupeFile, DupeFile) -> bool,
) -> bool {
    &&& forall|k: int, i: int|
        0 <= k < groups.len() && 0 <= i < groups[k].len() ==> input.contains(#[trigger] groups[k][i])
    &&& forall|k: int, i: int, j: int|
        0 <= k < groups.len() && 0 <= i < j < groups[k].len() ==> same(#[trigger] groups[k][i], #[trigger] groups[k][j])
    &&& forall|k: int| 0 <= k < groups.len() ==> (#[trigger] groups[k]).len() >= 2
    &&& forall|a: int, b: int|
        0 <= a < input.len() && 0 <= b < input.len() && input[a] != input[b] && same(
            #[trigger] input[a],
            #[trigger] input[b],
        ) ==> exists|k: int|
            0 <= k < groups.len() && (#[trigger] groups[k]).contains(input[a]) && groups[k].contains(input[b])
    &&& forall|k: int, l: int, i: int, j: int|
        0 <= k < groups.len() && 0 <= l < groups.len() && k != l && 0 <= i < groups[k].len() && 0 <= j < groups[l].len()
            ==> !same(#[trigger] groups[k][i], #[trigger] groups[l][j])
}

/// The files of `input`, gathered into lists of which the first is the
/// representative: the state of the comparison on its way.
pub open spec fn partition(
    groups: Seq<Seq<DupeFile>>,
    input: Seq<DupeFile>,
    same: spec_fn(DupeFile, DupeFile) -> bool,
) -> bool {
    &&& forall|k: int, i: int|
        0 <= k < groups.len() && 0 <= i < groups[k].len() ==> input.contains(#[trigger] groups[k][i])
    &&& forall|k: int| 0 <= k < groups.len() ==> (#[trigger] groups[k]).len() >= 1
    &&& forall|k: int, i: int|
        0 <= k < groups.len() && 1 <= i < groups[k].len() ==> same(groups[k][0], #[trigger] groups[k][i])
    &&& forall|k: int, l: int|
        0 <= k < l < groups.len() ==> !same((#[trigger] groups[k])[0], (#[trigger] groups[l])[0])
    &&& forall|a: int|
        0 <= a < input.len() ==> exists|k: int| 0 <= k < groups.len() && (#[trigger] groups[k]).contains(#[trigger] input[a])
}

/// The lists that `v` holds.
pub open spec fn lists(v: Seq<Vec<DupeFile>>) -> Seq<Seq<DupeFile>> {
    v.map_values(|g: Vec<DupeFile>| g@)
}

/// Every answer of `equal` is whether the files hold the same.
pub open spec fn tells_equal<E: Fn(&FsPath, &FsPath) -> bool>(equal: E, contents: Contents) -> bool {
    forall|a: FsPath, b: FsPath, r: bool| #[trigger]
        call_ensures(equal, (&a, &b), r) ==> r == ((contents.bytes)(a@) is Some && (contents.bytes)(a@)
            == (contents.bytes)(b@))
}

/// `equal` has confirmed each file of a list against its first.
pub open spec fn confirmed_by_first<E: Fn(&FsPath, &FsPath) -> bool>(equal: E, files: Seq<DupeFile>) -> bool {
    forall|i: int|
        1 <= i < files.len() ==> call_ensures(equal, (&files[0].path, &(#[trigger] files[i]).path), true)
}

proof fn lemma_linked(
    g: Seq<DupeFile>,
    h: Seq<DupeFile>,
    same: spec_fn(DupeFile, DupeFile) -> bool,
    i: int,
    j: int,
)
    requires
        equivalence(same),
        0 <= i < g.len(),
        0 <= j < h.len(),
        forall|k: int| 1 <= k < g.len() ==> same(g[0], #[trigger] g[k]),
        forall|k: int| 1 <= k < h.len() ==> same(h[0], #[trigger] h[k]),
        same(g[i], h[j]),
    ensures
        same(g[0], h[0]),
        same(h[0], g[0]),
{
    if i > 0 {
        assert(same(g[0], g[i]));
    }
    assert(same(g[0], h[j]));
    if j > 0 {
        assert(same(h[0], h[j]));
        assert(same(h[j], h[0]));
    }
    assert(same(g[0], h[0]));
}

/// A partition whose lists of one file are left out gathers the duplicates.
proof fn lemma_partition_gathers(
    groups: Seq<Seq<DupeFile>>,
    kept: Seq<Seq<DupeFile>>,
    input: Seq<DupeFile>,
    same: spec_fn(DupeFile, DupeFile) -> bool,
    from: Seq<int>,
)
    requires
        equivalence(same),
        partition(groups, input, same),
        kept.len() == from.len(),
        forall|k: int| 0 <= k < kept.len() ==> 0 <= #[trigger] from[k] < groups.len() && kept[k] == groups[from[k]],
        forall|k: int| 0 <= k < kept.len() ==> (#[trigger] kept[k]).len() >= 2,
        forall|k: int, l: int| 0 <= k < l < from.len() ==> #[trigger] from[k] != #[trigger] from[l],
        forall|g: int| 0 <= g < groups.len() && (#[trigger] groups[g]).len() >= 2 ==> from.contains(g),
    ensures
        gathered(kept, input, same),
{
    assert forall|k: int, i: int, j: int|
        0 <= k < kept.len() && 0 <= i < j < kept[k].len() implies same(
        #[trigger] kept[k][i],
        #[trigger] kept[k][j],
    ) by {
        let g = groups[from[k]];
        assert(same(g[0], g[j]));
        if i > 0 {
            assert(same(g[0], g[i]));
            assert(same(g[i], g[0]));
        }
    }
    assert forall|k: int, i: int| 0 <= k < kept.len() && 0 <= i < kept[k].len() implies input.contains(
        #[trigger] kept[k][i],
    ) by {
        assert(groups[from[k]][i] == kept[k][i]);
    }
    assert forall|k: int, l: int, i: int, j: int|
        0 <= k < kept.len() && 0 <= l < kept.len() && k != l && 0 <= i < kept[k].len() && 0 <= j < kept[l].len() implies !same(
        #[trigger] kept[k][i],
        #[trigger] kept[l][j],
    ) by {
        let g = groups[from[k]];
        let h = groups[from[l]];
        if same(g[i], h[j]) {
            lemma_linked(g, h, same, i, j);
            if from[k] < from[l] {
                assert(!same(groups[from[k]][0], groups[from[l]][0]));
            } else {
                if k < l {
                    assert(from[k] != from[l]);
                } else {
                    assert(from[l] != from[k]);
                }
                assert(!same(groups[from[l]][0], groups[from[k]][0]));
            }
        }
    }
    assert forall|a: int, b: int|
        0 <= a < input.len() && 0 <= b < input.len() && input[a] != input[b] && same(
            #[trigger] input[a],
            #[trigger] input[b],
        ) implies exists|k: int|
        0 <= k < kept.len() && (#[trigger] kept[k]).contains(input[a]) && kept[k].contains(input[b]) by {
        let ga = choose|k: int| 0 <= k < groups.len() && (#[trigger] groups[k]).contains(input[a]);
        let gb = choose|k: int| 0 <= k < groups.len() && (#[trigger] groups[k]).contains(input[b]);
        let i = choose|i: int| 0 <= i < groups[ga].len() && groups[ga][i] == input[a];
        let j = choose|j: int| 0 <= j < groups[gb].len() && groups[gb][j] == input[b];
        if ga != gb {
            lemma_linked(groups[ga], groups[gb], same, i, j);
            if ga < gb {
                assert(!same(groups[ga][0], groups[gb][0]));
            } else {
                assert(!same(groups[gb][0], groups[ga][0]));
            }
        }
        assert(ga == gb);
        let k = choose|k: int| 0 <= k < from.len() && from[k] == ga;
        assert(kept[k].contains(input[a]) && kept[k].contains(input[b]));
    }
}

proof fn lemma_partition_step(
    before: Seq<Seq<DupeFile>>,
    after: Seq<Seq<DupeFile>>,
    input: Seq<DupeFile>,
    file: DupeFile,
    same: spec_fn(DupeFile, DupeFile) -> bool,
    k: int,
    found: bool,
)
    requires
        equivalence(same),
        partition(before, input, same),
        found ==> 0 <= k < before.len() && same(before[k][0], file) && after == before.update(k, before[k].push(file)),
        !found ==> (forall|j: int| 0 <= j < before.len() ==> !same((#[trigger] before[j])[0], file)) && after
            == before.push(seq![file]),
    ensures
        partition(after, input.push(file), same),
{
    let more = input.push(file);
    assert(more[input.len() as int] == file);
    assert forall|g: int, i: int| 0 <= g < after.len() && 0 <= i < after[g].len() implies more.contains(
        #[trigger] after[g][i],
    ) by {
        if g < before.len() && i < before[g].len() {
            assert(after[g][i] == before[g][i]);
            let m = choose|m: int| 0 <= m < input.len() && input[m] == before[g][i];
            assert(more[m] == before[g][i]);
        } else {
            assert(after[g][i] == file);
        }
    }
    assert forall|g: int, i: int| 0 <= g < after.len() && 1 <= i < after[g].len() implies same(
        after[g][0],
        #[trigger] after[g][i],
    ) by {
        if i < before[g].len() {
            assert(same(before[g][0], before[g][i]));
        }
    }
    assert forall|g: int, l: int| 0 <= g < l < after.len() implies !same(
        (#[trigger] after[g])[0],
        (#[trigger] after[l])[0],
    ) by {
        assert(after[g][0] == before[g][0]);
        if l < before.len() {
            assert(after[l][0] == before[l][0]);
            assert(!same(before[g][0], before[l][0]));
        }
    }
    assert forall|a: int| 0 <= a < more.len() implies exists|g: int|
        0 <= g < after.len() && (#[trigger] after[g]).contains(#[trigger] more[a]) by {
        if a < input.len() {
            assert(more[a] == input[a]);
            let g = choose|g: int| 0 <= g < before.len() && (#[trigger] before[g]).contains(input[a]);
            let i = choose|i: int| 0 <= i < before[g].len() && before[g][i] == input[a];
            assert(after[g][i] == more[a]);
            assert(after[g].contains(more[a]));
        } else if found {
            assert(after[k][before[k].len() as int] == file);
            assert(after[k].contains(more[a]));
        } else {
            assert(after[before.len() as int][0] == file);
            assert(after[before.len() as int].contains(more[a]));
        }
    }
}

/// The files of all groups together, each as often as it stands in them.
pub open spec fn together(groups: Seq<Seq<DupeFile>>) -> Multiset<DupeFile>
    decreases groups.len(),
{
    if groups.len() == 0 {
        Multiset::empty()
    } else {
        together(groups.drop_last()).add(groups.last().to_multiset())
    }
}

proof fn lemma_together_push(groups: Seq<Seq<DupeFile>>, group: Seq<DupeFile>)
    ensures
        together(groups.push(group)) == together(groups).add(group.to_multiset()),
{
    assert(groups.push(group).drop_last() =~= groups);
}

proof fn lemma_together_concat(a: Seq<Seq<DupeFile>>, b: Seq<Seq<DupeFile>>)
    ensures
        together(a + b) == together(a).add(together(b)),
    decreases b.len(),
{
    if b.len() == 0 {
        assert(a + b =~= a);
        assert(together(a + b) =~= together(a).add(together(b)));
    } else {
        assert((a + b).drop_last() =~= a + b.drop_last());
        lemma_together_concat(a, b.drop_last());
        assert(together(a + b) =~= together(a).add(together(b)));
    }
}

proof fn lemma_together_remove(groups: Seq<Seq<DupeFile>>, k: int)
    requires
        0 <= k < groups.len(),
    ensures
        together(groups) == together(groups.remove(k)).add(groups[k].to_multiset()),
    decreases groups.len(),
{
    let last = groups.len() - 1;
    if k == last {
        assert(groups.remove(k) =~= groups.drop_last());
    } else {
        lemma_together_remove(groups.drop_last(), k);
        assert(groups.remove(k).drop_last() =~= groups.drop_last().remove(k));
        assert(groups.remove(k).last() == groups.last());
        assert(together(groups) =~= together(groups.remove(k)).add(groups[k].to_multiset()));
    }
}

proof fn lemma_together_grown(groups: Seq<Seq<DupeFile>>, k: int, file: DupeFile)
    requires
        0 <= k < groups.len(),
    ensures
        together(groups.update(k, groups[k].push(file))) == together(groups).insert(file),
{
    broadcast use vstd::seq_lib::group_to_multiset_ensures;

    let grown = groups.update(k, groups[k].push(file));
    lemma_together_remove(groups, k);
    lemma_together_remove(grown, k);
    assert(grown.remove(k) =~= groups.remove(k));
    assert(together(grown) =~= together(groups).insert(file));
}

proof fn lemma_together_same(a: Seq<Seq<DupeFile>>, b: Seq<Seq<DupeFile>>)
    requires
        a.to_multiset() == b.to_multiset(),
    ensures
        together(a) == together(b),
    decreases a.len(),
{
    broadcast use vstd::seq_lib::group_to_multiset_ensures;

    assert(a.len() == a.to_multiset().len() && b.len() == b.to_multiset().len());
    if a.len() > 0 {
        let last = a.len() - 1;
        assert(a.contains(a[last]));
        assert(b.to_multiset().count(a[last]) > 0);
        assert(b.contains(a[last]));
        let k = choose|k: int| 0 <= k < b.len() && b[k] == a[last];
        lemma_together_remove(a, last);
        lemma_together_remove(b, k);
        assert(a.remove(last).to_multiset() =~= b.remove(k).to_multiset());
        lemma_together_same(a.remove(last), b.remove(k));
    }
}

proof fn lemma_together_inner(a: Seq<Seq<DupeFile>>, b: Seq<Seq<DupeFile>>)
    requires
        a.len() == b.len(),
        forall|k: int| 0 <= k < a.len() ==> (#[trigger] a[k]).to_multiset() == b[k].to_multiset(),
    ensures
        together(a) == together(b),
    decreases a.len(),
{
    if a.len() > 0 {
        let last = a.len() - 1;
        assert(a[last].to_multiset() == b[last].to_multiset());
        let (c, d) = (a.drop_last(), b.drop_last());
        assert forall|k: int| 0 <= k < c.len() implies (#[trigger] c[k]).to_multiset() == d[k].to_multiset() by {
            assert(c[k] == a[k] && d[k] == b[k]);
        }
        lemma_together_inner(c, d);
    }
}

proof fn lemma_one_more(
    before: Seq<Seq<DupeFile>>,
    after: Seq<Seq<DupeFile>>,
    input: Seq<DupeFile>,
    file: DupeFile,
    k: int,
    found: bool,
)
    requires
        together(before) == input.to_multiset(),
        found ==> 0 <= k < before.len() && after == before.update(k, before[k].push(file)),
        !found ==> after == before.push(seq![file]),
    ensures
        together(after) == input.push(file).to_multiset(),
{
    broadcast use vstd::seq_lib::group_to_multiset_ensures;

    if found {
        lemma_together_grown(before, k, file);
    } else {
        lemma_together_push(before, seq![file]);
        assert(seq![file] =~= Seq::<DupeFile>::empty().push(file));
        assert(together(after) =~= together(before).insert(file));
    }
    assert(together(after) =~= input.push(file).to_multiset());
}

/// Partitions candidates into groups of byte-identical files: each candidate
/// is compared with the first file of each group so far.
pub fn confirm_groups<E: Fn(&FsPath, &FsPath) -> bool>(candidates: Vec<DupeFile>, equal: &E) -> (r: Vec<Vec<DupeFile>>)
    requires
        forall|a: &FsPath, b: &FsPath| call_requires(*equal, (a, b)),
        forall|i: int, j: int|
            0 <= i < j < candidates@.len() ==> (#[trigger] candidates@[i]).size_bytes == (
            #[trigger] candidates@[j]).size_bytes,
    ensures
        forall|k: int|
            0 <= k < r@.len() ==> (#[trigger] r@[k])@.len() >= 2 && r@[k]@.len() <= candidates@.len()
                && confirmed_by_first(*equal, r@[k]@),
        forall|k: int, i: int|
            0 <= k < r@.len() && 0 <= i < r@[k]@.len() ==> candidates@.contains(#[trigger] r@[k]@[i]),
        together(lists(r@)).subset_of(candidates@.to_multiset()),
        forall|contents: Contents| #[trigger]
            tells_equal(*equal, contents) ==> gathered(lists(r@), candidates@, identical(contents)),
{
    let ghost given = candidates@;
    let mut rest = reversed(candidates);
    let mut groups: Vec<Vec<DupeFile>> = Vec::new();
    let ghost mut n: int = 0;
    proof {
        vstd::seq_lib::to_multiset_len(Seq::<DupeFile>::empty());
        assert(given.take(0) =~= Seq::<DupeFile>::empty());
        assert(together(lists(groups@)) =~= given.take(0).to_multiset());
    }
    while rest.len() > 0
        invariant
            together(lists(groups@)) == given.take(n).to_multiset(),
            forall|a: &FsPath, b: &FsPath| call_requires(*equal, (a, b)),
            forall|i: int, j: int|
                0 <= i < j < given.len() ==> (#[trigger] given[i]).size_bytes == (#[trigger] given[j]).size_bytes,
            n + rest@.len() == given.len(),
            0 <= n,
            forall|k: int| 0 <= k < rest@.len() ==> #[trigger] rest@[k] == given[given.len() - 1 - k],
            forall|k: int|
                0 <= k < groups@.len() ==> 1 <= (#[trigger] groups@[k])@.len() <= n && confirmed_by_first(
                    *equal,
                    groups@[k]@,
                ),
            forall|k: int, i: int|
                0 <= k < groups@.len() && 0 <= i < groups@[k]@.len() ==> given.take(n).contains(
                    #[trigger] groups@[k]@[i],
                ),
            forall|contents: Contents| #[trigger]
                tells_equal(*equal, contents) ==> partition(lists(groups@), given.take(n), identical(contents)),
        decreases rest@.len(),
    {
        let ghost before = lists(groups@);
        match rest.pop() {
            Some(file) => {
                assert(file == given[n]);
                let mut k: usize = 0;
                let mut found = false;
                while k < groups.len() && !found
                    invariant
                        forall|a: &FsPath, b: &FsPath| call_requires(*equal, (a, b)),
                        k <= groups@.len(),
                        before == lists(groups@),
                        forall|k: int| 0 <= k < groups@.len() ==> 1 <= (#[trigger] groups@[k])@.len(),
                        found ==> k < groups@.len() && call_ensures(
                            *equal,
                            (&groups@[k as int]@[0].path, &file.path),
                            true,
                        ),
                        forall|j: int|
                            0 <= j < k ==> call_ensures(
                                *equal,
                                (&(#[trigger] groups@[j])@[0].path, &file.path),
                                false,
                            ),
                    decreases groups@.len() - k + (if found { 0int } else { 1int }),
                {
                    let answer = equal(&groups[k][0].path, &file.path);
                    if answer {
                        found = true;
                    } else {
                        k += 1;
                    }
                }
                let ghost old_groups = groups@;
                if found {
                    groups[k].push(file);
                    assert(groups@ =~= old_groups.update(k as int, groups@[k as int]));
                    assert(groups@[k as int]@ =~= old_groups[k as int]@.push(file));
                } else {
                    let mut alone: Vec<DupeFile> = Vec::new();
                    alone.push(file);
                    groups.push(alone);
                    assert(alone@ =~= seq![file]);
                    assert(groups@ =~= old_groups.push(alone));
                }
                proof {
                    let input = given.take(n);
                    assert(given.take(n + 1) =~= input.push(file));
                    assert(input.push(file)[n] == file);
                    let after = lists(groups@);
                    if found {
                        assert(after =~= before.update(k as int, before[k as int].push(file)));
                    } else {
                        assert(after =~= before.push(seq![file]));
                    }
                    lemma_one_more(before, after, input, file, k as int, found);
                    assert forall|j: int, i: int|
                        0 <= j < groups@.len() && 0 <= i < groups@[j]@.len() implies given.take(n + 1).contains(
                        #[trigger] groups@[j]@[i],
                    ) by {
                        if j < old_groups.len() && i < old_groups[j]@.len() {
                            assert(groups@[j]@[i] == old_groups[j]@[i]);
                            assert(input.contains(old_groups[j]@[i]));
                            let m = choose|m: int| 0 <= m < input.len() && input[m] == old_groups[j]@[i];
                            assert(input.push(file)[m] == old_groups[j]@[i]);
                        } else {
                            assert(groups@[j]@[i] == file);
                        }
                    }
                    assert forall|contents: Contents| #[trigger] tells_equal(*equal, contents) implies partition(
                        after,
                        given.take(n + 1),
                        identical(contents),
                    ) by {
                        let same = identical(contents);
                        assert forall|j: int| 0 <= j < before.len() implies (#[trigger] before[j])[0].size_bytes
                            == file.size_bytes by {
                            assert(input.contains(old_groups[j]@[0]));
                            let m = choose|m: int| 0 <= m < input.len() && input[m] == old_groups[j]@[0];
                            assert(given[m].size_bytes == given[n].size_bytes);
                        }
                        lemma_partition_step(before, after, input, file, same, k as int, found);
                    }
                    n = n + 1;
                }
            },
            None => {},
        }
    }
    assert(given.take(n) =~= given);
    let ghost all = groups@;
    let mut left = reversed(groups);
    let mut kept: Vec<Vec<DupeFile>> = Vec::new();
    let ghost mut from: Seq<int> = Seq::empty();
    let ghost mut m: int = 0;
    while left.len() > 0
        invariant
            m + left@.len() == all.len(),
            0 <= m,
            forall|k: int| 0 <= k < left@.len() ==> #[trigger] left@[k] == all[all.len() - 1 - k],
            from.len() == kept@.len(),
            together(lists(kept@)).subset_of(together(lists(all).take(m))),
            forall|k: int| 0 <= k < kept@.len() ==> 0 <= #[trigger] from[k] < m && kept@[k] == all[from[k]],
            forall|k: int| 0 <= k < kept@.len() ==> (#[trigger] kept@[k])@.len() >= 2,
            forall|k: int, l: int| 0 <= k < l < from.len() ==> #[trigger] from[k] < #[trigger] from[l],
            forall|g: int| 0 <= g < m && (#[trigger] all[g])@.len() >= 2 ==> from.contains(g),
        decreases left@.len(),
    {
        let ghost had = from;
        match left.pop() {
            Some(group) => {
                assert(group == all[m]);
                let ghost held_back = lists(kept@);
                if group.len() > 1 {
                    kept.push(group);
                    proof {
                        from = from.push(m);
                        assert(from[had.len() as int] == m);
                    }
                }
                proof {
                    let some = lists(all).take(m);
                    assert(lists(all).take(m + 1) =~= some.push(group@));
                    lemma_together_push(some, group@);
                    if group@.len() > 1 {
                        assert(lists(kept@) =~= held_back.push(group@));
                        lemma_together_push(held_back, group@);
                    }
                    assert forall|g: int| 0 <= g < m + 1 && (#[trigger] all[g])@.len() >= 2 implies from.contains(g) by {
                        if g < m {
                            let i = choose|i: int| 0 <= i < had.len() && had[i] == g;
                            assert(from[i] == g);
                        } else {
                            assert(from[had.len() as int] == m);
                        }
                    }
                    m = m + 1;
                }
            },
            None => {},
        }
    }
    proof {
        assert(lists(all).take(m) =~= lists(all));
        assert forall|k: int| 0 <= k < kept@.len() implies (#[trigger] kept@[k])@.len() >= 2 && kept@[k]@.len()
            <= given.len() && confirmed_by_first(*equal, kept@[k]@) by {
            assert(kept@[k] == all[from[k]]);
        }
        assert forall|k: int, i: int| 0 <= k < kept@.len() && 0 <= i < kept@[k]@.len() implies given.contains(
            #[trigger] kept@[k]@[i],
        ) by {
            assert(all[from[k]]@[i] == kept@[k]@[i]);
        }
        assert forall|contents: Contents| #[trigger] tells_equal(*equal, contents) implies gathered(
            lists(kept@),
            given,
            identical(contents),
        ) by {
            let groups_of = lists(all);
            let kept_of = lists(kept@);
            assert forall|k: int| 0 <= k < kept_of.len() implies (#[trigger] kept_of[k]).len() >= 2 by {
                assert(kept@[k]@.len() >= 2);
            }
            assert forall|k: int| 0 <= k < kept_of.len() implies 0 <= #[trigger] from[k] < groups_of.len() && kept_of[k]
                == groups_of[from[k]] by {}
            assert forall|g: int| 0 <= g < groups_of.len() && (#[trigger] groups_of[g]).len() >= 2 implies from.contains(
                g,
            ) by {
                assert(all[g]@.len() >= 2);
            }
            lemma_partition_gathers(groups_of, kept_of, given, identical(contents), from);
        }
    }
    kept
}

/// `x` has no duplicate.
pub open spec fn lonely(x: DupeFile, same: spec_fn(DupeFile, DupeFile) -> bool) -> bool {
    forall|y: DupeFile| !#[trigger] same(x, y) && !same(y, x)
}

/// Files without a duplicate may be added to what was searched.
proof fn lemma_gathered_more(
    groups: Seq<Seq<DupeFile>>,
    input: Seq<DupeFile>,
    more: Seq<DupeFile>,
    same: spec_fn(DupeFile, DupeFile) -> bool,
)
    requires
        gathered(groups, input, same),
        forall|a: int| 0 <= a < input.len() ==> more.contains(#[trigger] input[a]),
        forall|a: int| 0 <= a < more.len() ==> input.contains(#[trigger] more[a]) || lonely(more[a], same),
    ensures
        gathered(groups, more, same),
{
    assert forall|k: int, i: int| 0 <= k < groups.len() && 0 <= i < groups[k].len() implies more.contains(
        #[trigger] groups[k][i],
    ) by {
        assert(input.contains(groups[k][i]));
        let a = choose|a: int| 0 <= a < input.len() && input[a] == groups[k][i];
        assert(more.contains(input[a]));
    }
    assert forall|a: int, b: int|
        0 <= a < more.len() && 0 <= b < more.len() && more[a] != more[b] && same(
            #[trigger] more[a],
            #[trigger] more[b],
        ) implies exists|k: int|
        0 <= k < groups.len() && (#[trigger] groups[k]).contains(more[a]) && groups[k].contains(more[b]) by {
        let back = same(more[b], more[a]);
        assert(input.contains(more[a]) && input.contains(more[b]));
        let x = choose|x: int| 0 <= x < input.len() && input[x] == more[a];
        let y = choose|y: int| 0 <= y < input.len() && input[y] == more[b];
        assert(same(input[x], input[y]));
    }
}

/// Two searches of which nothing is a duplicate across may be put together.
proof fn lemma_gathered_concat(
    g1: Seq<Seq<DupeFile>>,
    in1: Seq<DupeFile>,
    g2: Seq<Seq<DupeFile>>,
    in2: Seq<DupeFile>,
    same: spec_fn(DupeFile, DupeFile) -> bool,
)
    requires
        equivalence(same),
        gathered(g1, in1, same),
        gathered(g2, in2, same),
        forall|x: int, y: int|
            0 <= x < in1.len() && 0 <= y < in2.len() ==> !same(#[trigger] in1[x], #[trigger] in2[y]),
    ensures
        gathered(g1 + g2, in1 + in2, same),
{
    let g = g1 + g2;
    let input = in1 + in2;
    let m = g1.len() as int;
    assert forall|k: int, i: int| 0 <= k < g.len() && 0 <= i < g[k].len() implies input.contains(
        #[trigger] g[k][i],
    ) by {
        if k < m {
            assert(in1.contains(g1[k][i]));
            let a = choose|a: int| 0 <= a < in1.len() && in1[a] == g1[k][i];
            assert(input[a] == g[k][i]);
        } else {
            assert(in2.contains(g2[k - m][i]));
            let a = choose|a: int| 0 <= a < in2.len() && in2[a] == g2[k - m][i];
            assert(input[in1.len() + a] == g[k][i]);
        }
    }
    assert forall|k: int, i: int, j: int| 0 <= k < g.len() && 0 <= i < j < g[k].len() implies same(
        #[trigger] g[k][i],
        #[trigger] g[k][j],
    ) by {
        if k < m {
            assert(same(g1[k][i], g1[k][j]));
        } else {
            assert(same(g2[k - m][i], g2[k - m][j]));
        }
    }
    assert forall|k: int| 0 <= k < g.len() implies (#[trigger] g[k]).len() >= 2 by {
        if k < m {
            assert(g1[k].len() >= 2);
        } else {
            assert(g2[k - m].len() >= 2);
        }
    }
    assert forall|a: int, b: int|
        0 <= a < input.len() && 0 <= b < input.len() && input[a] != input[b] && same(
            #[trigger] input[a],
            #[trigger] input[b],
        ) implies exists|k: int|
        0 <= k < g.len() && (#[trigger] g[k]).contains(input[a]) && g[k].contains(input[b]) by {
        let n = in1.len() as int;
        assert(same(input[b], input[a]));
        if a < n && b < n {
            assert(same(in1[a], in1[b]));
            let k = choose|k: int| 0 <= k < g1.len() && (#[trigger] g1[k]).contains(in1[a]) && g1[k].contains(in1[b]);
            assert(g[k] == g1[k]);
        } else if a >= n && b >= n {
            assert(same(in2[a - n], in2[b - n]));
            let k = choose|k: int|
                0 <= k < g2.len() && (#[trigger] g2[k]).contains(in2[a - n]) && g2[k].contains(in2[b - n]);
            assert(g[m + k] == g2[k]);
        } else if a < n {
            assert(!same(in1[a], in2[b - n]));
        } else {
            assert(!same(in1[b], in2[a - n]));
        }
    }
    assert forall|k: int, l: int, i: int, j: int|
        0 <= k < g.len() && 0 <= l < g.len() && k != l && 0 <= i < g[k].len() && 0 <= j < g[l].len() implies !same(
        #[trigger] g[k][i],
        #[trigger] g[l][j],
    ) by {
        if k < m && l < m {
            assert(!same(g1[k][i], g1[l][j]));
        } else if k >= m && l >= m {
            assert(!same(g2[k - m][i], g2[l - m][j]));
        } else if k < m {
            assert(in1.contains(g1[k][i]) && in2.contains(g2[l - m][j]));
            let x = choose|x: int| 0 <= x < in1.len() && in1[x] == g1[k][i];
            let y = choose|y: int| 0 <= y < in2.len() && in2[y] == g2[l - m][j];
            assert(!same(in1[x], in2[y]));
        } else {
            assert(in1.contains(g1[l][j]) && in2.contains(g2[k - m][i]));
            let x = choose|x: int| 0 <= x < in1.len() && in1[x] == g1[l][j];
            let y = choose|y: int| 0 <= y < in2.len() && in2[y] == g2[k - m][i];
            assert(!same(in1[x], in2[y]));
            if same(g[k][i], g[l][j]) {
                assert(same(g[l][j], g[k][i]));
            }
        }
    }
}

/// Fewer than two files have no duplicates.
proof fn lemma_gathered_few(input: Seq<DupeFile>, same: spec_fn(DupeFile, DupeFile) -> bool)
    requires
        input.len() < 2,
    ensures
        gathered(Seq::empty(), input, same),
{
}

/// Every answer of `hash` is the hash of what the file holds, where it can be
/// read.
pub open spec fn tells_hash<H: Fn(&FsPath) -> Option<u64>>(hash: H, contents: Contents) -> bool {
    forall|a: FsPath, r: Option<u64>| #[trigger]
        call_ensures(hash, (&a,), r) ==> r == match (contents.bytes)(a@) {
            Some(bytes) => Some((contents.digest)(bytes)),
            None => None,
        }
}

/// Every file of a group was confirmed against one file of it.
pub open spec fn confirmed<E: Fn(&FsPath, &FsPath) -> bool>(equal: E, files: Seq<DupeFile>) -> bool {
    exists|first: int| 0 <= first < files.len() && #[trigger] confirmed_against(equal, files, first)
}

/// Every other file of a list was confirmed against the one at `first`.
pub open spec fn confirmed_against<E: Fn(&FsPath, &FsPath) -> bool>(
    equal: E,
    files: Seq<DupeFile>,
    first: int,
) -> bool {
    forall|i: int|
        0 <= i < files.len() && i != first ==> call_ensures(
            equal,
            (&files[first].path, &(#[trigger] files[i]).path),
            true,
        )
}

/// A list of groups as they come out of a bucket.
pub open spec fn raw_groups<E: Fn(&FsPath, &FsPath) -> bool>(
    equal: E,
    groups: Seq<Vec<DupeFile>>,
    input: Seq<DupeFile>,
) -> bool {
    &&& forall|k: int|
        0 <= k < groups.len() ==> (#[trigger] groups[k])@.len() >= 2 && groups[k]@.len() <= input.len()
            && confirmed_by_first(equal, groups[k]@)
    &&& forall|k: int, i: int|
        0 <= k < groups.len() && 0 <= i < groups[k]@.len() ==> input.contains(#[trigger] groups[k]@[i])
}

proof fn lemma_raw_groups_concat<E: Fn(&FsPath, &FsPath) -> bool>(
    equal: E,
    a: Seq<Vec<DupeFile>>,
    b: Seq<Vec<DupeFile>>,
    input: Seq<DupeFile>,
    part: Seq<DupeFile>,
)
    requires
        raw_groups(equal, a, input),
        raw_groups(equal, b, part),
        part.len() <= input.len(),
        forall|i: int| 0 <= i < part.len() ==> input.contains(#[trigger] part[i]),
    ensures
        raw_groups(equal, a + b, input),
{
    let g = a + b;
    assert forall|k: int| 0 <= k < g.len() implies (#[trigger] g[k])@.len() >= 2 && g[k]@.len() <= input.len()
        && confirmed_by_first(equal, g[k]@) by {
        if k < a.len() {
            assert(g[k] == a[k]);
        } else {
            assert(g[k] == b[k - a.len()]);
        }
    }
    assert forall|k: int, i: int| 0 <= k < g.len() && 0 <= i < g[k]@.len() implies input.contains(
        #[trigger] g[k]@[i],
    ) by {
        if k < a.len() {
            assert(g[k] == a[k]);
            assert(input.contains(a[k]@[i]));
        } else {
            assert(g[k] == b[k - a.len()]);
            assert(part.contains(b[k - a.len()]@[i]));
            let x = choose|x: int| 0 <= x < part.len() && part[x] == b[k - a.len()]@[i];
            assert(input.contains(part[x]));
        }
    }
}

/// The files of the first buckets, one after the other.
pub open spec fn poured(buckets: Seq<Bucket<DupeFile>>, n: int) -> Seq<DupeFile>
    decreases n,
{
    if n <= 0 {
        Seq::empty()
    } else {
        poured(buckets, n - 1) + buckets[n - 1].items@
    }
}

proof fn lemma_poured(buckets: Seq<Bucket<DupeFile>>, n: int, x: DupeFile)
    requires
        0 <= n <= buckets.len(),
    ensures
        poured(buckets, n).contains(x) <==> exists|k: int| 0 <= k < n && (#[trigger] buckets[k]).items@.contains(x),
    decreases n,
{
    if n > 0 {
        lemma_poured(buckets, n - 1, x);
        let front = poured(buckets, n - 1);
        let back = buckets[n - 1].items@;
        if poured(buckets, n).contains(x) {
            let i = choose|i: int| 0 <= i < poured(buckets, n).len() && poured(buckets, n)[i] == x;
            if i < front.len() {
                assert(front[i] == x);
                assert(front.contains(x));
            } else {
                assert(back[i - front.len()] == x);
                assert(buckets[n - 1].items@.contains(x));
            }
        }
        if front.contains(x) {
            let i = choose|i: int| 0 <= i < front.len() && front[i] == x;
            assert(poured(buckets, n)[i] == x);
        }
        if back.contains(x) {
            let i = choose|i: int| 0 <= i < back.len() && back[i] == x;
            assert(poured(buckets, n)[front.len() + i] == x);
        }
    }
}

/// The buckets hold what they were made from.
proof fn lemma_poured_all(buckets: Seq<Bucket<DupeFile>>, input: Seq<DupeFile>, keys: Seq<u64>)
    requires
        bucketed(buckets, input, keys),
    ensures
        forall|a: int|
            0 <= a < poured(buckets, buckets.len() as int).len() ==> input.contains(
                #[trigger] poured(buckets, buckets.len() as int)[a],
            ),
        forall|a: int| 0 <= a < input.len() ==> poured(buckets, buckets.len() as int).contains(#[trigger] input[a]),
{
    let n = buckets.len() as int;
    let all = poured(buckets, n);
    assert forall|a: int| 0 <= a < all.len() implies input.contains(#[trigger] all[a]) by {
        assert(all.contains(all[a]));
        lemma_poured(buckets, n, all[a]);
        let k = choose|k: int| 0 <= k < n && (#[trigger] buckets[k]).items@.contains(all[a]);
        let i = choose|i: int| 0 <= i < buckets[k].items@.len() && buckets[k].items@[i] == all[a];
        assert(came_from(buckets[k].items@[i], buckets[k].key, input, keys));
    }
    assert forall|a: int| 0 <= a < input.len() implies all.contains(#[trigger] input[a]) by {
        assert(filed(buckets, input[a], keys[a]));
        lemma_poured(buckets, n, input[a]);
    }
}

proof fn lemma_pushed(before: Seq<DupeFile>, after: Seq<DupeFile>, given: Seq<DupeFile>, n: int)
    requires
        0 <= n < given.len(),
        before.to_multiset().subset_of(given.take(n).to_multiset()),
        after == before || after == before.push(given[n]),
    ensures
        after.to_multiset().subset_of(given.take(n + 1).to_multiset()),
{
    broadcast use vstd::seq_lib::group_to_multiset_ensures;

    assert(given.take(n + 1) =~= given.take(n).push(given[n]));
}

/// What a bucket gave goes to what the buckets before it gave.
proof fn lemma_poured_in(
    before: Seq<Seq<DupeFile>>,
    added: Seq<Seq<DupeFile>>,
    buckets: Seq<Bucket<DupeFile>>,
    m: int,
)
    requires
        0 <= m < buckets.len(),
        together(before).subset_of(held(buckets.take(m))),
        together(added).subset_of(buckets[m].items@.to_multiset()),
    ensures
        together(before + added).subset_of(held(buckets.take(m + 1))),
{
    lemma_together_concat(before, added);
    assert(buckets.take(m + 1).drop_last() =~= buckets.take(m));
}

/// Gathers the duplicates among files of one size: those with the same hash
/// are compared byte by byte. Files that cannot be read have none.
pub fn gather_bucket<H: Fn(&FsPath) -> Option<u64>, E: Fn(&FsPath, &FsPath) -> bool>(
    files: Vec<DupeFile>,
    hash: &H,
    equal: &E,
) -> (r: Vec<Vec<DupeFile>>)
    requires
        forall|a: &FsPath| call_requires(*hash, (a,)),
        forall|a: &FsPath, b: &FsPath| call_requires(*equal, (a, b)),
        forall|i: int, j: int|
            0 <= i < j < files@.len() ==> (#[trigger] files@[i]).size_bytes == (#[trigger] files@[j]).size_bytes,
    ensures
        raw_groups(*equal, r@, files@),
        together(lists(r@)).subset_of(files@.to_multiset()),
        forall|contents: Contents|
            #![trigger tells_hash(*hash, contents), tells_equal(*equal, contents)]
            tells_hash(*hash, contents) && tells_equal(*equal, contents) ==> gathered(
                lists(r@),
                files@,
                identical(contents),
            ),
{
    let ghost given = files@;
    let mut rest = reversed(files);
    let mut hashed: Vec<DupeFile> = Vec::new();
    let mut keys: Vec<u64> = Vec::new();
    let ghost mut n: int = 0;
    proof {
        vstd::seq_lib::to_multiset_len(Seq::<DupeFile>::empty());
        assert(given.take(0) =~= Seq::<DupeFile>::empty());
        assert(hashed@ =~= Seq::<DupeFile>::empty());
    }
    while rest.len() > 0
        invariant
            hashed@.to_multiset().subset_of(given.take(n).to_multiset()),
            forall|a: &FsPath| call_requires(*hash, (a,)),
            n + rest@.len() == given.len(),
            0 <= n,
            forall|k: int| 0 <= k < rest@.len() ==> #[trigger] rest@[k] == given[given.len() - 1 - k],
            hashed@.len() == keys@.len() <= n,
            forall|i: int| 0 <= i < hashed@.len() ==> given.contains(#[trigger] hashed@[i]),
            forall|i: int|
                0 <= i < hashed@.len() ==> call_ensures(
                    *hash,
                    (&(#[trigger] hashed@[i]).path,),
                    Some(keys@[i]),
                ),
            forall|a: int|
                0 <= a < n ==> hashed@.contains(#[trigger] given[a]) || call_ensures(*hash, (&given[a].path,), None),
        decreases rest@.len(),
    {
        match rest.pop() {
            Some(file) => {
                assert(file == given[n]);
                let ghost before = hashed@;
                let answer = hash(&file.path);
                match answer {
                    Some(key) => {
                        hashed.push(file);
                        keys.push(key);
                        assert(hashed@[before.len() as int] == given[n]);
                    },
                    None => {},
                }
                proof {
                    lemma_pushed(before, hashed@, given, n);
                    assert forall|a: int| 0 <= a < n + 1 implies hashed@.contains(#[trigger] given[a]) || call_ensures(
                        *hash,
                        (&given[a].path,),
                        None,
                    ) by {
                        if a < n && before.contains(given[a]) {
                            let i = choose|i: int| 0 <= i < before.len() && before[i] == given[a];
                            assert(hashed@[i] == given[a]);
                        }
                    }
                    n = n + 1;
                }
            },
            None => {},
        }
    }
    let ghost readable = hashed@;
    let ghost hashes = keys@;
    let buckets = into_buckets(hashed, &keys);
    let ghost all = buckets@;
    let mut left = reversed(buckets);
    let mut out: Vec<Vec<DupeFile>> = Vec::new();
    let ghost mut m: int = 0;
    assert(lists(out@) =~= Seq::<Seq<DupeFile>>::empty());
    assert(given.take(n) =~= given);
    while left.len() > 0
        invariant
            together(lists(out@)).subset_of(held(all.take(m))),
            forall|a: &FsPath, b: &FsPath| call_requires(*equal, (a, b)),
            forall|i: int, j: int|
                0 <= i < j < given.len() ==> (#[trigger] given[i]).size_bytes == (#[trigger] given[j]).size_bytes,
            forall|i: int| 0 <= i < readable.len() ==> given.contains(#[trigger] readable[i]),
            forall|i: int|
                0 <= i < readable.len() ==> call_ensures(*hash, (&(#[trigger] readable[i]).path,), Some(hashes[i])),
            readable.len() == hashes.len() <= given.len(),
            bucketed(all, readable, hashes),
            m + left@.len() == all.len(),
            0 <= m,
            forall|k: int| 0 <= k < left@.len() ==> #[trigger] left@[k] == all[all.len() - 1 - k],
            raw_groups(*equal, out@, given),
            forall|contents: Contents|
                #![trigger tells_hash(*hash, contents), tells_equal(*equal, contents)]
                tells_hash(*hash, contents) && tells_equal(*equal, contents) ==> gathered(
                    lists(out@),
                    poured(all, m),
                    identical(contents),
                ),
        decreases left@.len(),
    {
        let ghost before = out@;
        match left.pop() {
            Some(bucket) => {
                assert(bucket == all[m]);
                let ghost part = bucket.items@;
                proof {
                    lemma_bucket_part(all, readable, hashes, m, given);
                }
                if bucket.items.len() >= 2 {
                    let mut more = confirm_groups(bucket.items, equal);
                    let ghost added = more@;
                    out.append(&mut more);
                    proof {
                        assert(raw_groups(*equal, added, part));
                        lemma_raw_groups_concat(*equal, before, added, given, part);
                        assert(out@ =~= before + added);
                        assert(lists(out@) =~= lists(before) + lists(added));
                        lemma_poured_in(lists(before), lists(added), all, m);
                        assert forall|contents: Contents|
                            #![trigger tells_hash(*hash, contents), tells_equal(*equal, contents)]
                            tells_hash(*hash, contents) && tells_equal(*equal, contents) implies gathered(
                            lists(out@),
                            poured(all, m + 1),
                            identical(contents),
                        ) by {
                            lemma_hash_buckets_apart(all, readable, hashes, m, *hash, contents);
                            lemma_gathered_concat(
                                lists(before),
                                poured(all, m),
                                lists(added),
                                part,
                                identical(contents),
                            );
                        }
                    }
                } else {
                    proof {
                        let none: Seq<Seq<DupeFile>> = Seq::empty();
                        lemma_poured_in(lists(before), none, all, m);
                        assert(lists(before) + none =~= lists(out@));
                        assert forall|contents: Contents|
                            #![trigger tells_hash(*hash, contents), tells_equal(*equal, contents)]
                            tells_hash(*hash, contents) && tells_equal(*equal, contents) implies gathered(
                            lists(out@),
                            poured(all, m + 1),
                            identical(contents),
                        ) by {
                            lemma_hash_buckets_apart(all, readable, hashes, m, *hash, contents);
                            lemma_gathered_few(part, identical(contents));
                            lemma_gathered_concat(
                                lists(before),
                                poured(all, m),
                                none,
                                part,
                                identical(contents),
                            );
                        }
                    }
                }
                proof {
                    m = m + 1;
                }
            },
            None => {},
        }
    }
    proof {
        assert(all.take(m) =~= all);
        lemma_poured_all(all, readable, hashes);
        assert forall|contents: Contents|
            #![trigger tells_hash(*hash, contents), tells_equal(*equal, contents)]
            tells_hash(*hash, contents) && tells_equal(*equal, contents) implies gathered(
            lists(out@),
            given,
            identical(contents),
        ) by {
            let pool = poured(all, m);
            let same = identical(contents);
            assert forall|a: int| 0 <= a < pool.len() implies given.contains(#[trigger] pool[a]) by {
                assert(readable.contains(pool[a]));
                let i = choose|i: int| 0 <= i < readable.len() && readable[i] == pool[a];
                assert(given.contains(readable[i]));
            }
            assert forall|a: int| 0 <= a < given.len() implies pool.contains(#[trigger] given[a]) || lonely(
                given[a],
                same,
            ) by {
                if readable.contains(given[a]) {
                    let i = choose|i: int| 0 <= i < readable.len() && readable[i] == given[a];
                    assert(pool.contains(readable[i]));
                } else {
                    assert(call_ensures(*hash, (&given[a].path,), None));
                    assert((contents.bytes)(given[a].path@) is None);
                }
            }
            lemma_gathered_more(lists(out@), pool, given, same);
        }
    }
    out
}

proof fn lemma_bucket_part(
    buckets: Seq<Bucket<DupeFile>>,
    readable: Seq<DupeFile>,
    keys: Seq<u64>,
    m: int,
    given: Seq<DupeFile>,
)
    requires
        bucketed(buckets, readable, keys),
        0 <= m < buckets.len(),
        readable.len() <= given.len(),
        forall|i: int, j: int|
            0 <= i < j < given.len() ==> (#[trigger] given[i]).size_bytes == (#[trigger] given[j]).size_bytes,
        forall|i: int| 0 <= i < readable.len() ==> given.contains(#[trigger] readable[i]),
    ensures
        forall|i: int| 0 <= i < buckets[m].items@.len() ==> given.contains(#[trigger] buckets[m].items@[i]),
        forall|i: int, j: int|
            0 <= i < j < buckets[m].items@.len() ==> (#[trigger] buckets[m].items@[i]).size_bytes == (
            #[trigger] buckets[m].items@[j]).size_bytes,
{
    let part = buckets[m].items@;
    assert forall|i: int| 0 <= i < part.len() implies given.contains(#[trigger] part[i]) by {
        assert(came_from(buckets[m].items@[i], buckets[m].key, readable, keys));
        let a = choose|a: int| 0 <= a < readable.len() && #[trigger] readable[a] == part[i] && keys[a] == buckets[m].key;
        assert(given.contains(readable[a]));
    }
    assert forall|i: int, j: int| 0 <= i < j < part.len() implies (#[trigger] part[i]).size_bytes == (
    #[trigger] part[j]).size_bytes by {
        assert(given.contains(part[i]) && given.contains(part[j]));
        let a = choose|a: int| 0 <= a < given.len() && given[a] == part[i];
        let b = choose|b: int| 0 <= b < given.len() && given[b] == part[j];
        if a < b {
            assert(given[a].size_bytes == given[b].size_bytes);
        } else if b < a {
            assert(given[b].size_bytes == given[a].size_bytes);
        }
    }
}

proof fn lemma_hash_buckets_apart<H: Fn(&FsPath) -> Option<u64>>(
    buckets: Seq<Bucket<DupeFile>>,
    readable: Seq<DupeFile>,
    keys: Seq<u64>,
    m: int,
    hash: H,
    contents: Contents,
)
    requires
        bucketed(buckets, readable, keys),
        0 <= m < buckets.len(),
        tells_hash(hash, contents),
        forall|i: int|
            0 <= i < readable.len() ==> call_ensures(hash, (&(#[trigger] readable[i]).path,), Some(keys[i])),
    ensures
        equivalence(identical(contents)),
        forall|x: int, y: int|
            0 <= x < poured(buckets, m).len() && 0 <= y < buckets[m].items@.len() ==> !identical(contents)(
                #[trigger] poured(buckets, m)[x],
                #[trigger] buckets[m].items@[y],
            ),
{
    let pool = poured(buckets, m);
    let part = buckets[m].items@;
    assert forall|x: int, y: int| 0 <= x < pool.len() && 0 <= y < part.len() implies !identical(contents)(
        #[trigger] pool[x],
        #[trigger] part[y],
    ) by {
        assert(pool.contains(pool[x]));
        lemma_poured(buckets, m, pool[x]);
        let k = choose|k: int| 0 <= k < m && (#[trigger] buckets[k]).items@.contains(pool[x]);
        let i = choose|i: int| 0 <= i < buckets[k].items@.len() && buckets[k].items@[i] == pool[x];
        assert(came_from(buckets[k].items@[i], buckets[k].key, readable, keys));
        assert(came_from(buckets[m].items@[y], buckets[m].key, readable, keys));
        let a = choose|a: int| 0 <= a < readable.len() && #[trigger] readable[a] == pool[x] && keys[a] == buckets[k].key;
        let b = choose|b: int| 0 <= b < readable.len() && #[trigger] readable[b] == part[y] && keys[b] == buckets[m].key;
        assert(call_ensures(hash, (&readable[a].path,), Some(keys[a])));
        assert(call_ensures(hash, (&readable[b].path,), Some(keys[b])));
        assert(buckets[k].key > buckets[m].key);
    }
}

/// `sorted` are the files of a list, in order of path.
pub open spec fn in_path_order(sorted: Seq<DupeFile>, files: Seq<DupeFile>) -> bool {
    exists|order: Seq<usize>|
        ordered(order, 0, files.len() as int, paths_first(file_paths(files))) && sorted == #[trigger] reordered(
            files,
            order,
        )
}

/// The paths of a list of files.
pub open spec fn file_paths(files: Seq<DupeFile>) -> Seq<Seq<char>> {
    files.map_values(|f: DupeFile| f.path@)
}

/// `moved` is `groups` with the files of each group in another order.
pub open spec fn inner_moved(moved: Seq<Seq<DupeFile>>, groups: Seq<Seq<DupeFile>>) -> bool {
    &&& moved.len() == groups.len()
    &&& forall|k: int| 0 <= k < groups.len() ==> rearranged(#[trigger] moved[k], groups[k])
}

/// `moved` is `items` in another order.
pub open spec fn rearranged<T>(moved: Seq<T>, items: Seq<T>) -> bool {
    exists|order: Seq<usize>|
        permutes(order, items.len() as int) && moved == #[trigger] reordered(items, order)
}

/// `order` lists the numbers below `n`, each once.
pub open spec fn permutes(order: Seq<usize>, n: int) -> bool {
    &&& order.len() == n
    &&& forall|i: int| 0 <= i < order.len() ==> 0 <= #[trigger] order[i] < n
    &&& forall|i: int, j: int| 0 <= i < j < order.len() ==> #[trigger] order[i] != #[trigger] order[j]
    &&& forall|a: int| 0 <= a < n ==> #[trigger] listed(order, a)
}

/// `order` lists the number `a`.
pub open spec fn listed(order: Seq<usize>, a: int) -> bool {
    exists|i: int| 0 <= i < order.len() && #[trigger] order[i] == a
}

proof fn lemma_ordered_rearranges<T>(items: Seq<T>, order: Seq<usize>, rel: spec_fn(int, int) -> bool)
    requires
        items.len() <= usize::MAX,
        ordered(order, 0, items.len() as int, rel),
        order::total_order(rel),
        forall|a: int| !#[trigger] rel(a, a),
    ensures
        rearranged(reordered(items, order), items),
{
    order::lemma_ordered_distinct(order, items.len() as int, rel);
    assert forall|a: int| 0 <= a < items.len() implies #[trigger] listed(order, a) by {
        order::lemma_ordered_complete(order, items.len() as int, rel, a);
    }
    assert(permutes(order, items.len() as int));
}

proof fn lemma_rearranged_contains<T>(moved: Seq<T>, items: Seq<T>, x: T)
    requires
        rearranged(moved, items),
    ensures
        moved.contains(x) <==> items.contains(x),
        moved.len() == items.len(),
{
    let order = choose|order: Seq<usize>|
        permutes(order, items.len() as int) && moved == #[trigger] reordered(items, order);
    if moved.contains(x) {
        let i = choose|i: int| 0 <= i < moved.len() && moved[i] == x;
        assert(items[order[i] as int] == x);
    }
    if items.contains(x) {
        let a = choose|a: int| 0 <= a < items.len() && items[a] == x;
        assert(listed(order, a));
        let i = choose|i: int| 0 <= i < order.len() && #[trigger] order[i] == a;
        assert(moved[i] == x);
    }
}

/// Two places of a rearranged list come from two places of the list.
proof fn lemma_rearranged_pair<T>(moved: Seq<T>, items: Seq<T>, i: int, j: int) -> (r: (int, int))
    requires
        rearranged(moved, items),
        0 <= i < moved.len(),
        0 <= j < moved.len(),
        i != j,
    ensures
        0 <= r.0 < items.len(),
        0 <= r.1 < items.len(),
        r.0 != r.1,
        moved[i] == items[r.0],
        moved[j] == items[r.1],
{
    let order = choose|order: Seq<usize>|
        permutes(order, items.len() as int) && moved == #[trigger] reordered(items, order);
    if i < j {
        assert(order[i] != order[j]);
    } else {
        assert(order[j] != order[i]);
    }
    (order[i] as int, order[j] as int)
}

/// The order of the files in a group does not matter.
proof fn lemma_gathered_inner(
    moved: Seq<Seq<DupeFile>>,
    groups: Seq<Seq<DupeFile>>,
    input: Seq<DupeFile>,
    same: spec_fn(DupeFile, DupeFile) -> bool,
)
    requires
        equivalence(same),
        gathered(groups, input, same),
        inner_moved(moved, groups),
    ensures
        gathered(moved, input, same),
{
    assert forall|k: int, i: int| 0 <= k < moved.len() && 0 <= i < moved[k].len() implies input.contains(
        #[trigger] moved[k][i],
    ) by {
        assert(rearranged(moved[k], groups[k]));
        lemma_rearranged_contains(moved[k], groups[k], moved[k][i]);
        assert(moved[k].contains(moved[k][i]));
        let j = choose|j: int| 0 <= j < groups[k].len() && groups[k][j] == moved[k][i];
        assert(input.contains(groups[k][j]));
    }
    assert forall|k: int, i: int, j: int| 0 <= k < moved.len() && 0 <= i < j < moved[k].len() implies same(
        #[trigger] moved[k][i],
        #[trigger] moved[k][j],
    ) by {
        assert(rearranged(moved[k], groups[k]));
        let (a, b) = lemma_rearranged_pair(moved[k], groups[k], i, j);
        if a < b {
            assert(same(groups[k][a], groups[k][b]));
        } else {
            assert(same(groups[k][b], groups[k][a]));
        }
    }
    assert forall|k: int| 0 <= k < moved.len() implies (#[trigger] moved[k]).len() >= 2 by {
        assert(rearranged(moved[k], groups[k]));
        assert(groups[k].len() >= 2);
    }
    assert forall|a: int, b: int|
        0 <= a < input.len() && 0 <= b < input.len() && input[a] != input[b] && same(
            #[trigger] input[a],
            #[trigger] input[b],
        ) implies exists|k: int|
        0 <= k < moved.len() && (#[trigger] moved[k]).contains(input[a]) && moved[k].contains(input[b]) by {
        let k = choose|k: int|
            0 <= k < groups.len() && (#[trigger] groups[k]).contains(input[a]) && groups[k].contains(input[b]);
        assert(rearranged(moved[k], groups[k]));
        lemma_rearranged_contains(moved[k], groups[k], input[a]);
        lemma_rearranged_contains(moved[k], groups[k], input[b]);
        assert(moved[k].contains(input[a]));
    }
    assert forall|k: int, l: int, i: int, j: int|
        0 <= k < moved.len() && 0 <= l < moved.len() && k != l && 0 <= i < moved[k].len() && 0 <= j < moved[l].len() implies !same(
        #[trigger] moved[k][i],
        #[trigger] moved[l][j],
    ) by {
        assert(rearranged(moved[k], groups[k]) && rearranged(moved[l], groups[l]));
        lemma_rearranged_contains(moved[k], groups[k], moved[k][i]);
        lemma_rearranged_contains(moved[l], groups[l], moved[l][j]);
        assert(moved[k].contains(moved[k][i]) && moved[l].contains(moved[l][j]));
        let a = choose|a: int| 0 <= a < groups[k].len() && groups[k][a] == moved[k][i];
        let b = choose|b: int| 0 <= b < groups[l].len() && groups[l][b] == moved[l][j];
        assert(!same(groups[k][a], groups[l][b]));
    }
}

/// The order of the groups does not matter.
proof fn lemma_gathered_outer(
    moved: Seq<Seq<DupeFile>>,
    groups: Seq<Seq<DupeFile>>,
    input: Seq<DupeFile>,
    same: spec_fn(DupeFile, DupeFile) -> bool,
)
    requires
        gathered(groups, input, same),
        rearranged(moved, groups),
    ensures
        gathered(moved, input, same),
{
    assert forall|k: int| 0 <= k < moved.len() implies groups.contains(#[trigger] moved[k]) by {
        assert(moved.contains(moved[k]));
        lemma_rearranged_contains(moved, groups, moved[k]);
    }
    assert forall|k: int, i: int| 0 <= k < moved.len() && 0 <= i < moved[k].len() implies input.contains(
        #[trigger] moved[k][i],
    ) by {
        assert(groups.contains(moved[k]));
        let g = choose|g: int| 0 <= g < groups.len() && groups[g] == moved[k];
        assert(input.contains(groups[g][i]));
    }
    assert forall|k: int, i: int, j: int| 0 <= k < moved.len() && 0 <= i < j < moved[k].len() implies same(
        #[trigger] moved[k][i],
        #[trigger] moved[k][j],
    ) by {
        assert(groups.contains(moved[k]));
        let g = choose|g: int| 0 <= g < groups.len() && groups[g] == moved[k];
        assert(same(groups[g][i], groups[g][j]));
    }
    assert forall|k: int| 0 <= k < moved.len() implies (#[trigger] moved[k]).len() >= 2 by {
        assert(groups.contains(moved[k]));
        let g = choose|g: int| 0 <= g < groups.len() && groups[g] == moved[k];
        assert(groups[g].len() >= 2);
    }
    assert forall|a: int, b: int|
        0 <= a < input.len() && 0 <= b < input.len() && input[a] != input[b] && same(
            #[trigger] input[a],
            #[trigger] input[b],
        ) implies exists|k: int|
        0 <= k < moved.len() && (#[trigger] moved[k]).contains(input[a]) && moved[k].contains(input[b]) by {
        let g = choose|g: int|
            0 <= g < groups.len() && (#[trigger] groups[g]).contains(input[a]) && groups[g].contains(input[b]);
        lemma_rearranged_contains(moved, groups, groups[g]);
        assert(groups.contains(groups[g]));
        let k = choose|k: int| 0 <= k < moved.len() && moved[k] == groups[g];
        assert(moved[k].contains(input[a]));
    }
    assert forall|k: int, l: int, i: int, j: int|
        0 <= k < moved.len() && 0 <= l < moved.len() && k != l && 0 <= i < moved[k].len() && 0 <= j < moved[l].len() implies !same(
        #[trigger] moved[k][i],
        #[trigger] moved[l][j],
    ) by {
        let (g, h) = lemma_rearranged_pair(moved, groups, k, l);
        assert(!same(groups[g][i], groups[h][j]));
    }
}

/// Puts files in order of path.
fn sort_files(files: Vec<DupeFile>) -> (r: Vec<DupeFile>)
    ensures
        in_path_order(r@, files@),
        rearranged(r@, files@),
        r@.to_multiset() == files@.to_multiset(),
{
    let ghost given = files@;
    let mut keys: Vec<FsPath> = Vec::new();
    let mut i: usize = 0;
    while i < files.len()
        invariant
            i <= files@.len(),
            keys@.len() == i,
            forall|k: int| 0 <= k < i ==> #[trigger] keys@[k] == files@[k].path,
        decreases files@.len() - i,
    {
        keys.push(files[i].path.clone());
        i += 1;
    }
    let ghost paths = keys@.map_values(|p: FsPath| p@);
    assert(paths =~= file_paths(given));
    let order = order::order_by_path(&keys);
    proof {
        order::lemma_paths_first_total(paths);
        order::lemma_ordered_distinct(order@, keys@.len() as int, paths_first(paths));
        lemma_ordered_rearranges(given, order@, paths_first(paths));
        order::lemma_reordered_multiset(given, order@, paths_first(paths));
    }
    order::reorder(files, &order)
}

/// An entry that a walk met.
#[derive(Debug)]
pub struct WalkedFile {
    pub path: FsPath,
    /// Whether the entry, links not followed, is a regular file.
    pub is_file: bool,
    /// The length that the metadata gives, where it can be read.
    pub len: Option<u64>,
}

/// Whether a walk enters a directory: the place it starts at, and otherwise
/// only what is on the same volume. Every file of the data volume exists under
/// two names, and is not to be offered as a copy of itself.
pub fn enters(depth: usize, is_mount_point: bool) -> (r: bool)
    ensures
        r == (depth == 0 || !is_mount_point),
{
    depth == 0 || !is_mount_point
}

/// The files worth comparing: regular, of known size, and large enough.
pub open spec fn eligible(walked: Seq<WalkedFile>, min_bytes: u64) -> Seq<DupeFile>
    decreases walked.len(),
{
    if walked.len() == 0 {
        Seq::empty()
    } else {
        let before = eligible(walked.drop_last(), min_bytes);
        let last = walked.last();
        if last.is_file && last.len is Some && last.len->0 >= min_bytes {
            before.push(DupeFile { path: last.path, size_bytes: last.len->0 })
        } else {
            before
        }
    }
}

/// The sizes of a list of files.
pub open spec fn file_sizes(files: Seq<DupeFile>) -> Seq<u64> {
    files.map_values(|f: DupeFile| f.size_bytes)
}

/// What all but one of the files of a size weigh together.
pub open spec fn redundant(files: Seq<DupeFile>, size: u64) -> int {
    (file_sizes(files).to_multiset().count(size) - 1) * size
}

/// The files of a list of groups.
pub open spec fn group_files(groups: Seq<DupeGroup>) -> Seq<Seq<DupeFile>> {
    groups.map_values(|g: DupeGroup| g.files@)
}

/// A group worth reporting: at least two files of one size, confirmed byte by
/// byte, in order of path, with what all but one of them weigh.
pub open spec fn good_group<E: Fn(&FsPath, &FsPath) -> bool>(equal: E, group: DupeGroup, input: Seq<DupeFile>) -> bool {
    let files = group.files@;
    &&& files.len() >= 2
    &&& forall|i: int|
        0 <= i < files.len() ==> input.contains(#[trigger] files[i]) && files[i].size_bytes == group.size_bytes
    &&& group.reclaimable_bytes == group.size_bytes * (files.len() - 1)
    &&& confirmed(equal, files)
    &&& forall|i: int, j: int|
        0 <= i < j < files.len() ==> parts_less(parts((#[trigger] files[i]).path@), parts((#[trigger] files[j]).path@))
            || same_path(files[i].path@, files[j].path@)
}

proof fn lemma_sorted_group<E: Fn(&FsPath, &FsPath) -> bool>(equal: E, raw: Seq<DupeFile>, files: Seq<DupeFile>)
    requires
        raw.len() >= 2,
        raw.len() <= usize::MAX,
        confirmed_by_first(equal, raw),
        in_path_order(files, raw),
    ensures
        files.len() == raw.len(),
        confirmed(equal, files),
        forall|i: int, j: int|
            0 <= i < j < files.len() ==> parts_less(parts((#[trigger] files[i]).path@), parts((#[trigger] files[j]).path@))
                || same_path(files[i].path@, files[j].path@),
{
    let paths = file_paths(raw);
    let order = choose|order: Seq<usize>|
        ordered(order, 0, raw.len() as int, paths_first(paths)) && files == #[trigger] reordered(raw, order);
    order::lemma_paths_first_total(paths);
    order::lemma_ordered_distinct(order, raw.len() as int, paths_first(paths));
    order::lemma_ordered_complete(order, raw.len() as int, paths_first(paths), 0);
    let first = choose|first: int| 0 <= first < order.len() && #[trigger] order[first] == 0;
    assert forall|i: int| 0 <= i < files.len() && i != first implies call_ensures(
        equal,
        (&files[first].path, &(#[trigger] files[i]).path),
        true,
    ) by {
        if i < first {
            assert(order[i] != order[first]);
        } else {
            assert(order[first] != order[i]);
        }
        assert(files[first] == raw[0]);
        assert(files[i] == raw[order[i] as int]);
    }
    assert(confirmed_against(equal, files, first));
    assert forall|i: int, j: int| 0 <= i < j < files.len() implies parts_less(
        parts((#[trigger] files[i]).path@),
        parts((#[trigger] files[j]).path@),
    ) || same_path(files[i].path@, files[j].path@) by {
        assert(paths_first(paths)(order[i] as int, order[j] as int));
        assert(paths[order[i] as int] == files[i].path@);
        assert(paths[order[j] as int] == files[j].path@);
    }
}

/// Makes a group of files that were found identical.
fn make_group<E: Fn(&FsPath, &FsPath) -> bool>(
    raw: Vec<DupeFile>,
    size: u64,
    equal: &E,
    Ghost(input): Ghost<Seq<DupeFile>>,
) -> (r: DupeGroup)
    requires
        raw@.len() >= 2,
        confirmed_by_first(*equal, raw@),
        forall|i: int| 0 <= i < raw@.len() ==> input.contains(#[trigger] raw@[i]) && raw@[i].size_bytes == size,
        size * (raw@.len() - 1) <= u64::MAX,
    ensures
        good_group(*equal, r, input),
        rearranged(r.files@, raw@),
        r.files@.to_multiset() == raw@.to_multiset(),
        r.size_bytes == size,
{
    let n: usize = raw.len();
    let ghost given = raw@;
    let reclaimable: u64 = size * (n as u64 - 1);
    let files = sort_files(raw);
    proof {
        lemma_sorted_group(*equal, given, files@);
        assert forall|i: int| 0 <= i < files@.len() implies input.contains(#[trigger] files@[i])
            && files@[i].size_bytes == size by {
            assert(files@.contains(files@[i]));
            lemma_rearranged_contains(files@, given, files@[i]);
            let a = choose|a: int| 0 <= a < given.len() && given[a] == files@[i];
            assert(input.contains(given[a]));
        }
    }
    DupeGroup { size_bytes: size, files, reclaimable_bytes: reclaimable }
}

/// The reclaimable bytes of a list of groups.
pub open spec fn reclaimables(groups: Seq<DupeGroup>) -> Seq<u64> {
    groups.map_values(|g: DupeGroup| g.reclaimable_bytes)
}

/// Turns the groups of one bucket into reports.
fn make_groups<E: Fn(&FsPath, &FsPath) -> bool>(
    raw: Vec<Vec<DupeFile>>,
    size: u64,
    part: Ghost<Seq<DupeFile>>,
    equal: &E,
    Ghost(input): Ghost<Seq<DupeFile>>,
) -> (r: Vec<DupeGroup>)
    requires
        raw_groups(*equal, raw@, part@),
        forall|i: int| 0 <= i < part@.len() ==> input.contains(#[trigger] part@[i]) && part@[i].size_bytes == size,
        size * (part@.len() - 1) <= u64::MAX,
    ensures
        forall|k: int| 0 <= k < r@.len() ==> good_group(*equal, #[trigger] r@[k], input),
        inner_moved(group_files(r@), lists(raw@)),
        together(group_files(r@)) == together(lists(raw@)),
{
    let ghost given = raw@;
    let mut rest = reversed(raw);
    let mut r: Vec<DupeGroup> = Vec::new();
    let ghost mut n: int = 0;
    while rest.len() > 0
        invariant
            raw_groups(*equal, given, part@),
            forall|i: int| 0 <= i < part@.len() ==> input.contains(#[trigger] part@[i]) && part@[i].size_bytes == size,
            size * (part@.len() - 1) <= u64::MAX,
            n + rest@.len() == given.len(),
            0 <= n,
            r@.len() == n,
            forall|k: int| 0 <= k < rest@.len() ==> #[trigger] rest@[k] == given[given.len() - 1 - k],
            forall|k: int| 0 <= k < r@.len() ==> good_group(*equal, #[trigger] r@[k], input),
            forall|k: int| 0 <= k < r@.len() ==> rearranged((#[trigger] r@[k]).files@, given[k]@),
            forall|k: int| 0 <= k < r@.len() ==> (#[trigger] r@[k]).files@.to_multiset() == given[k]@.to_multiset(),
        decreases rest@.len(),
    {
        match rest.pop() {
            Some(files) => {
                proof {
                    assert(files == given[n]);
                    assert(size * (files@.len() - 1) <= size * (part@.len() - 1)) by (nonlinear_arith)
                        requires
                            files@.len() <= part@.len(),
                    ;
                    assert forall|i: int| 0 <= i < files@.len() implies input.contains(#[trigger] files@[i])
                        && files@[i].size_bytes == size by {
                        assert(part@.contains(given[n]@[i]));
                        let a = choose|a: int| 0 <= a < part@.len() && part@[a] == files@[i];
                        assert(input.contains(part@[a]));
                    }
                }
                let group = make_group(files, size, equal, Ghost(input));
                r.push(group);
                proof {
                    n = n + 1;
                }
            },
            None => {},
        }
    }
    proof {
        let moved = group_files(r@);
        let groups = lists(given);
        assert forall|k: int| 0 <= k < groups.len() implies rearranged(#[trigger] moved[k], groups[k]) by {
            assert(rearranged(r@[k].files@, given[k]@));
        }
        assert forall|k: int| 0 <= k < moved.len() implies (#[trigger] moved[k]).to_multiset()
            == groups[k].to_multiset() by {
            assert(r@[k].files@.to_multiset() == given[k]@.to_multiset());
        }
        lemma_together_inner(moved, groups);
    }
    r
}

proof fn lemma_size_buckets_apart(
    buckets: Seq<Bucket<DupeFile>>,
    input: Seq<DupeFile>,
    m: int,
    contents: Contents,
)
    requires
        bucketed(buckets, input, file_sizes(input)),
        0 <= m < buckets.len(),
    ensures
        equivalence(identical(contents)),
        forall|x: int, y: int|
            0 <= x < poured(buckets, m).len() && 0 <= y < buckets[m].items@.len() ==> !identical(contents)(
                #[trigger] poured(buckets, m)[x],
                #[trigger] buckets[m].items@[y],
            ),
{
    let pool = poured(buckets, m);
    let part = buckets[m].items@;
    assert forall|x: int, y: int| 0 <= x < pool.len() && 0 <= y < part.len() implies !identical(contents)(
        #[trigger] pool[x],
        #[trigger] part[y],
    ) by {
        assert(pool.contains(pool[x]));
        lemma_poured(buckets, m, pool[x]);
        let k = choose|k: int| 0 <= k < m && (#[trigger] buckets[k]).items@.contains(pool[x]);
        let i = choose|i: int| 0 <= i < buckets[k].items@.len() && buckets[k].items@[i] == pool[x];
        lemma_size_bucket(buckets, input, k);
        lemma_size_bucket(buckets, input, m);
        assert(buckets[k].items@[i].size_bytes == buckets[k].key);
        assert(buckets[k].key > buckets[m].key);
    }
}

proof fn lemma_size_bucket(buckets: Seq<Bucket<DupeFile>>, input: Seq<DupeFile>, m: int)
    requires
        bucketed(buckets, input, file_sizes(input)),
        0 <= m < buckets.len(),
    ensures
        forall|i: int|
            0 <= i < buckets[m].items@.len() ==> input.contains(#[trigger] buckets[m].items@[i])
                && buckets[m].items@[i].size_bytes == buckets[m].key,
{
    let part = buckets[m].items@;
    assert forall|i: int| 0 <= i < part.len() implies input.contains(#[trigger] part[i]) && part[i].size_bytes
        == buckets[m].key by {
        assert(came_from(buckets[m].items@[i], buckets[m].key, input, file_sizes(input)));
        let a = choose|a: int|
            0 <= a < input.len() && #[trigger] input[a] == part[i] && file_sizes(input)[a] == buckets[m].key;
        assert(input[a].size_bytes == buckets[m].key);
    }
}

proof fn lemma_all_good_concat<E: Fn(&FsPath, &FsPath) -> bool>(
    equal: E,
    a: Seq<DupeGroup>,
    b: Seq<DupeGroup>,
    input: Seq<DupeFile>,
)
    requires
        forall|k: int| 0 <= k < a.len() ==> good_group(equal, #[trigger] a[k], input),
        forall|k: int| 0 <= k < b.len() ==> good_group(equal, #[trigger] b[k], input),
    ensures
        forall|k: int| 0 <= k < (a + b).len() ==> good_group(equal, #[trigger] (a + b)[k], input),
{
    assert forall|k: int| 0 <= k < (a + b).len() implies good_group(equal, #[trigger] (a + b)[k], input) by {
        if k < a.len() {
            assert((a + b)[k] == a[k]);
        } else {
            assert((a + b)[k] == b[k - a.len()]);
        }
    }
}

/// Finds the groups of byte-identical files among what a walk met, the most
/// reclaimable first. `hash` clusters candidates, `equal` confirms them byte
/// by byte.
pub fn find_duplicates<H: Fn(&FsPath) -> Option<u64>, E: Fn(&FsPath, &FsPath) -> bool>(
    walked: &Vec<WalkedFile>,
    opts: DupeOptions,
    hash: &H,
    equal: &E,
) -> (r: Vec<DupeGroup>)
    requires
        forall|a: &FsPath| call_requires(*hash, (a,)),
        forall|a: &FsPath, b: &FsPath| call_requires(*equal, (a, b)),
        forall|size: u64| #[trigger] redundant(eligible(walked@, opts.min_bytes), size) <= u64::MAX,
    ensures
        forall|k: int| 0 <= k < r@.len() ==> good_group(*equal, #[trigger] r@[k], eligible(walked@, opts.min_bytes)),
        together(group_files(r@)).subset_of(eligible(walked@, opts.min_bytes).to_multiset()),
        forall|k: int, l: int|
            0 <= k < l < r@.len() ==> (#[trigger] r@[k]).reclaimable_bytes >= (#[trigger] r@[l]).reclaimable_bytes,
        forall|contents: Contents|
            #![trigger tells_hash(*hash, contents), tells_equal(*equal, contents)]
            tells_hash(*hash, contents) && tells_equal(*equal, contents) ==> gathered(
                group_files(r@),
                eligible(walked@, opts.min_bytes),
                identical(contents),
            ),
{
    let ghost input = eligible(walked@, opts.min_bytes);
    let mut files: Vec<DupeFile> = Vec::new();
    let mut keys: Vec<u64> = Vec::new();
    let mut i: usize = 0;
    while i < walked.len()
        invariant
            i <= walked@.len(),
            files@ == eligible(walked@.take(i as int), opts.min_bytes),
            keys@ =~= file_sizes(files@),
        decreases walked@.len() - i,
    {
        assert(walked@.take(i + 1).drop_last() =~= walked@.take(i as int));
        let entry: &WalkedFile = &walked[i];
        if entry.is_file {
            if let Some(size) = entry.len {
                if size >= opts.min_bytes {
                    files.push(DupeFile { path: entry.path.clone(), size_bytes: size });
                    keys.push(size);
                }
            }
        }
        i += 1;
    }
    assert(walked@.take(i as int) =~= walked@);
    let buckets = into_buckets(files, &keys);
    let ghost all = buckets@;
    let mut left = reversed(buckets);
    let mut out: Vec<DupeGroup> = Vec::new();
    let ghost mut m: int = 0;
    assert(group_files(out@) =~= Seq::<Seq<DupeFile>>::empty());
    while left.len() > 0
        invariant
            forall|a: &FsPath| call_requires(*hash, (a,)),
            forall|a: &FsPath, b: &FsPath| call_requires(*equal, (a, b)),
            forall|size: u64| #[trigger] redundant(input, size) <= u64::MAX,
            together(group_files(out@)).subset_of(held(all.take(m))),
            bucketed(all, input, file_sizes(input)),
            m + left@.len() == all.len(),
            0 <= m,
            forall|k: int| 0 <= k < left@.len() ==> #[trigger] left@[k] == all[all.len() - 1 - k],
            forall|k: int| 0 <= k < out@.len() ==> good_group(*equal, #[trigger] out@[k], input),
            forall|contents: Contents|
                #![trigger tells_hash(*hash, contents), tells_equal(*equal, contents)]
                tells_hash(*hash, contents) && tells_equal(*equal, contents) ==> gathered(
                    group_files(out@),
                    poured(all, m),
                    identical(contents),
                ),
        decreases left@.len(),
    {
        let ghost before = out@;
        match left.pop() {
            Some(bucket) => {
                assert(bucket == all[m]);
                let ghost part = bucket.items@;
                let size: u64 = bucket.key;
                proof {
                    lemma_size_bucket(all, input, m);
                    let most = file_sizes(input).to_multiset().count(size);
                    assert(redundant(input, size) <= u64::MAX);
                    assert(size * (part.len() - 1) <= (most - 1) * size) by (nonlinear_arith)
                        requires
                            part.len() <= most,
                    ;
                }
                if bucket.items.len() >= 2 {
                    let raw = gather_bucket(bucket.items, hash, equal);
                    let ghost found = lists(raw@);
                    let mut more = make_groups(raw, size, Ghost(part), equal, Ghost(input));
                    let ghost added = more@;
                    out.append(&mut more);
                    proof {
                        assert(out@ =~= before + added);
                        lemma_all_good_concat(*equal, before, added, input);
                        assert(group_files(out@) =~= group_files(before) + group_files(added));
                        lemma_poured_in(group_files(before), group_files(added), all, m);
                        assert forall|contents: Contents|
                            #![trigger tells_hash(*hash, contents), tells_equal(*equal, contents)]
                            tells_hash(*hash, contents) && tells_equal(*equal, contents) implies gathered(
                            group_files(out@),
                            poured(all, m + 1),
                            identical(contents),
                        ) by {
                            lemma_size_buckets_apart(all, input, m, contents);
                            lemma_gathered_inner(group_files(added), found, part, identical(contents));
                            lemma_gathered_concat(
                                group_files(before),
                                poured(all, m),
                                group_files(added),
                                part,
                                identical(contents),
                            );
                        }
                    }
                } else {
                    proof {
                        let none: Seq<Seq<DupeFile>> = Seq::empty();
                        lemma_poured_in(group_files(before), none, all, m);
                        assert(group_files(before) + none =~= group_files(out@));
                        assert forall|contents: Contents|
                            #![trigger tells_hash(*hash, contents), tells_equal(*equal, contents)]
                            tells_hash(*hash, contents) && tells_equal(*equal, contents) implies gathered(
                            group_files(out@),
                            poured(all, m + 1),
                            identical(contents),
                        ) by {
                            lemma_size_buckets_apart(all, input, m, contents);
                            lemma_gathered_few(part, identical(contents));
                            lemma_gathered_concat(
                                group_files(before),
                                poured(all, m),
                                none,
                                part,
                                identical(contents),
                            );
                        }
                    }
                }
                proof {
                    m = m + 1;
                }
            },
            None => {},
        }
    }
    proof {
        assert(all.take(m) =~= all);
        lemma_poured_all(all, input, file_sizes(input));
    }
    let ghost met = out@;
    assert forall|contents: Contents|
        #![trigger tells_hash(*hash, contents), tells_equal(*equal, contents)]
        tells_hash(*hash, contents) && tells_equal(*equal, contents) implies gathered(
        group_files(met),
        input,
        identical(contents),
    ) by {
        lemma_gathered_more(group_files(met), poured(all, m), input, identical(contents));
    }
    sort_groups(out, Ghost(input), hash, equal)
}

/// Puts groups in order, the most reclaimable first.
fn sort_groups<H: Fn(&FsPath) -> Option<u64>, E: Fn(&FsPath, &FsPath) -> bool>(
    groups: Vec<DupeGroup>,
    Ghost(input): Ghost<Seq<DupeFile>>,
    hash: &H,
    equal: &E,
) -> (r: Vec<DupeGroup>)
    requires
        forall|k: int| 0 <= k < groups@.len() ==> good_group(*equal, #[trigger] groups@[k], input),
        forall|contents: Contents|
            #![trigger tells_hash(*hash, contents), tells_equal(*equal, contents)]
            tells_hash(*hash, contents) && tells_equal(*equal, contents) ==> gathered(
                group_files(groups@),
                input,
                identical(contents),
            ),
    ensures
        forall|k: int| 0 <= k < r@.len() ==> good_group(*equal, #[trigger] r@[k], input),
        together(group_files(r@)) == together(group_files(groups@)),
        forall|k: int, l: int|
            0 <= k < l < r@.len() ==> (#[trigger] r@[k]).reclaimable_bytes >= (#[trigger] r@[l]).reclaimable_bytes,
        forall|contents: Contents|
            #![trigger tells_hash(*hash, contents), tells_equal(*equal, contents)]
            tells_hash(*hash, contents) && tells_equal(*equal, contents) ==> gathered(
                group_files(r@),
                input,
                identical(contents),
            ),
{
    let ghost met = groups@;
    let mut keys: Vec<u64> = Vec::new();
    let mut i: usize = 0;
    while i < groups.len()
        invariant
            i <= groups@.len(),
            keys@ =~= reclaimables(groups@).take(i as int),
        decreases groups@.len() - i,
    {
        keys.push(groups[i].reclaimable_bytes);
        i += 1;
    }
    assert(keys@ =~= reclaimables(met));
    let order = order::order_larger_first(&keys);
    proof {
        order::lemma_ordered_distinct(order@, keys@.len() as int, larger_first(keys@));
        lemma_ordered_rearranges(group_files(met), order@, larger_first(keys@));
    }
    let r = order::reorder(groups, &order);
    proof {
        assert(group_files(r@) =~= reordered(group_files(met), order@));
        order::lemma_reordered_multiset(group_files(met), order@, larger_first(keys@));
        lemma_together_same(group_files(r@), group_files(met));
        assert forall|k: int| 0 <= k < r@.len() implies good_group(*equal, #[trigger] r@[k], input) by {
            assert(r@[k] == met[order@[k] as int]);
        }
        assert forall|k: int, l: int| 0 <= k < l < r@.len() implies (#[trigger] r@[k]).reclaimable_bytes >= (
        #[trigger] r@[l]).reclaimable_bytes by {
            assert(larger_first(keys@)(order@[k] as int, order@[l] as int));
            assert(keys@[order@[k] as int] == met[order@[k] as int].reclaimable_bytes);
            assert(keys@[order@[l] as int] == met[order@[l] as int].reclaimable_bytes);
        }
        assert forall|contents: Contents|
            #![trigger tells_hash(*hash, contents), tells_equal(*equal, contents)]
            tells_hash(*hash, contents) && tells_equal(*equal, contents) implies gathered(
            group_files(r@),
            input,
            identical(contents),
        ) by {
            lemma_gathered_outer(group_files(r@), group_files(met), input, identical(contents));
        }
    }
    r
}

/// How a comparison of two files stands.
#[derive(Debug, Clone, Copy, PartialEq, Eq, Structural)]
pub enum Verdict {
    /// They differ, or one of them cannot be read.
    Different,
    /// Both ended, and nothing differed.
    Same,
    /// Nothing differed so far, and there is more to read.
    Undecided,
}

/// The next chunk of a file; nothing where it cannot be read.
pub open spec fn chunk_view(chunk: Option<&Vec<u8>>) -> Option<Seq<u8>> {
    match chunk {
        Some(bytes) => Some(bytes@),
        None => None,
    }
}

/// What the next chunks of two files tell.
pub open spec fn compared(a: Option<Seq<u8>>, b: Option<Seq<u8>>) -> Verdict {
    if a is None || b is None || a->0 != b->0 {
        Verdict::Different
    } else if a->0.len() == 0 {
        Verdict::Same
    } else {
        Verdict::Undecided
    }
}

/// Compares the next chunks of two files. An empty chunk is the end.
pub fn compare_chunks(a: Option<&Vec<u8>>, b: Option<&Vec<u8>>) -> (r: Verdict)
    ensures
        r == compared(chunk_view(a), chunk_view(b)),
{
    match (a, b) {
        (Some(x), Some(y)) => {
            let n: usize = x.len();
            if n != y.len() {
                return Verdict::Different;
            }
            if n == 0 {
                assert(x@ =~= y@);
                return Verdict::Same;
            }
            let mut i: usize = 0;
            while i < n
                invariant
                    a == Some(x),
                    b == Some(y),
                    x@.len() == n,
                    y@.len() == n,
                    i <= n,
                    forall|k: int| 0 <= k < i ==> x@[k] == y@[k],
                decreases n - i,
            {
                if x[i] != y[i] {
                    assert(x@[i as int] != y@[i as int]);
                    return Verdict::Different;
                }
                i += 1;
            }
            assert(x@ =~= y@);
            Verdict::Undecided
        },
        _ => Verdict::Different,
    }
}

/// The chunks of a file one after the other.
pub open spec fn whole(chunks: Seq<Seq<u8>>) -> Seq<u8>
    decreases chunks.len(),
{
    if chunks.len() == 0 {
        Seq::empty()
    } else {
        whole(chunks.drop_last()) + chunks.last()
    }
}

/// Two files that were compared to their end without a difference hold the
/// same bytes.
pub proof fn same_means_same_bytes(a: Seq<Seq<u8>>, b: Seq<Seq<u8>>)
    requires
        a.len() == b.len(),
        forall|i: int| 0 <= i < a.len() ==> #[trigger] compared(Some(a[i]), Some(b[i])) != Verdict::Different,
    ensures
        whole(a) == whole(b),
    decreases a.len(),
{
    if a.len() > 0 {
        assert(compared(Some(a[a.len() - 1]), Some(b[a.len() - 1])) != Verdict::Different);
        assert forall|i: int| 0 <= i < a.drop_last().len() implies #[trigger] compared(
            Some(a.drop_last()[i]),
            Some(b.drop_last()[i]),
        ) != Verdict::Different by {
            assert(compared(Some(a[i]), Some(b[i])) != Verdict::Different);
        }
        same_means_same_bytes(a.drop_last(), b.drop_last());
    }
}

/// A regular file whose length is known and reaches the floor is compared with
/// the others, at that length; nothing else is.
pub proof fn what_is_worth_comparing(walked: Seq<WalkedFile>, w: WalkedFile, floor: u64, n: u64)
    ensures
        eligible(Seq::empty(), floor).len() == 0,
        w.is_file && w.len == Some(n) && n >= floor ==> eligible(walked.push(w), floor) == eligible(walked, floor).push(
            DupeFile { path: w.path, size_bytes: n },
        ),
        w.is_file && w.len == Some(n) && n < floor ==> eligible(walked.push(w), floor) == eligible(walked, floor),
        !w.is_file ==> eligible(walked.push(w), floor) == eligible(walked, floor),
        w.len is None ==> eligible(walked.push(w), floor) == eligible(walked, floor),
{
    assert(walked.push(w).drop_last() =~= walked);
}

/// Groups of copies: files of a group hold the same bytes, files of different
/// groups do not, and two files that hold the same bytes are in one.
pub proof fn copies_are_gathered(
    groups: Seq<Seq<DupeFile>>,
    input: Seq<DupeFile>,
    contents: Contents,
    k: int,
    l: int,
    i: int,
    j: int,
)
    requires
        gathered(groups, input, identical(contents)),
    ensures
        0 <= k < groups.len() && 0 <= i < j < groups[k].len() ==> (contents.bytes)(groups[k][i].path@) is Some && (
        contents.bytes)(groups[k][i].path@) == (contents.bytes)(groups[k][j].path@) && groups[k][i].size_bytes
            == groups[k][j].size_bytes,
        0 <= k < groups.len() && 0 <= l < groups.len() && k != l && 0 <= i < groups[k].len() && 0 <= j < groups[l].len()
            && (contents.bytes)(groups[k][i].path@) is Some && groups[k][i].size_bytes == groups[l][j].size_bytes ==> (
        contents.bytes)(groups[k][i].path@) != (contents.bytes)(groups[l][j].path@),
        0 <= i < input.len() && 0 <= j < input.len() && input[i] != input[j] && input[i].size_bytes == input[j].size_bytes
            && (contents.bytes)(input[i].path@) is Some && (contents.bytes)(input[i].path@) == (contents.bytes)(
            input[j].path@,
        ) ==> exists|g: int| 0 <= g < groups.len() && (#[trigger] groups[g]).contains(input[i]) && groups[g].contains(input[j]),
        0 <= k < groups.len() ==> groups[k].len() >= 2,
{
    let same = identical(contents);
    if 0 <= k < groups.len() && 0 <= i < j < groups[k].len() {
        assert(same(groups[k][i], groups[k][j]));
    }
    if 0 <= k < groups.len() && 0 <= l < groups.len() && k != l && 0 <= i < groups[k].len() && 0 <= j < groups[l].len() {
        assert(!same(groups[k][i], groups[l][j]));
    }
    if 0 <= i < input.len() && 0 <= j < input.len() && input[i] != input[j] && input[i].size_bytes == input[j].size_bytes && (
    contents.bytes)(input[i].path@) is Some && (contents.bytes)(input[i].path@) == (contents.bytes)(input[j].path@) {
        assert(same(input[i], input[j]));
    }
}

/// A group gives back what all its files weigh, but for one of them.
pub proof fn a_group_gives_back_all_but_one<E: Fn(&FsPath, &FsPath) -> bool>(
    equal: E,
    group: DupeGroup,
    input: Seq<DupeFile>,
)
    requires
        good_group(equal, group, input),
    ensures
        group.reclaimable_bytes + group.files@[0].size_bytes == sum(file_sizes(group.files@)),
{
    let files = group.files@;
    lemma_equal_sizes(files, group.size_bytes);
    assert(group.size_bytes * (files.len() - 1) + group.size_bytes == group.size_bytes * files.len()) by (nonlinear_arith);
    assert(files[0].size_bytes == group.size_bytes);
}

proof fn lemma_equal_sizes(files: Seq<DupeFile>, size: u64)
    requires
        forall|i: int| 0 <= i < files.len() ==> (#[trigger] files[i]).size_bytes == size,
    ensures
        sum(file_sizes(files)) == size * files.len(),
    decreases files.len(),
{
    if files.len() > 0 {
        let front = files.drop_last();
        lemma_equal_sizes(front, size);
        assert(file_sizes(files).drop_last() =~= file_sizes(front));
        assert(files[files.len() - 1].size_bytes == size);
        assert(size * front.len() + size == size * files.len()) by (nonlinear_arith)
            requires
                files.len() == front.len() + 1,
        ;
    } else {
        assert(size * files.len() == 0) by (nonlinear_arith)
            requires
                files.len() == 0,
        ;
    }
}

} // verus!
