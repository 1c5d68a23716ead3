//! The mathematical model of a partition of the sites `0..n` into clusters.
//!
//! A partition is written as a labelling: a sequence that names, for each
//! site, the representative of the cluster it belongs to. Two sites share a
//! cluster exactly when they carry the same label, and a representative
//! carries its own label.

use vstd::prelude::*;

verus! {

/// Every label is a site, and every label is the label of itself.
pub open spec fn well_labelled(labels: Seq<int>) -> bool {
    forall|i: int|
        0 <= i < labels.len() ==> {
            &&& 0 <= #[trigger] labels[i] < labels.len()
            &&& labels[labels[i]] == labels[i]
        }
}

/// The partition of `n` sites in which every site is alone in its cluster.
pub open spec fn singletons(n: nat) -> Seq<int> {
    Seq::new(n, |i: int| i)
}

/// Whether all sites lie in one cluster.
pub open spec fn all_joined(labels: Seq<int>) -> bool {
    forall|i: int, j: int|
        0 <= i < labels.len() && 0 <= j < labels.len() ==> labels[i] == labels[j]
}

/// The number of sites below `k` that carry the label `r`.
pub open spec fn count_upto(labels: Seq<int>, r: int, k: int) -> nat
    decreases k,
{
    if k <= 0 {
        0
    } else {
        count_upto(labels, r, k - 1) + if labels[k - 1] == r {
            1nat
        } else {
            0nat
        }
    }
}

/// The number of sites in the cluster that `r` represents.
pub open spec fn class_size(labels: Seq<int>, r: int) -> nat {
    count_upto(labels, r, labels.len() as int)
}

/// The labelling in which every site labelled `from` is labelled `to` instead.
pub open spec fn relabel(labels: Seq<int>, from: int, to: int) -> Seq<int> {
    Seq::new(
        labels.len(),
        |i: int|
            if labels[i] == from {
                to
            } else {
                labels[i]
            },
    )
}

/// The labelling after the clusters of the sites `a` and `b` are joined.
///
/// The representative of the larger cluster represents the union; when the
/// two are of one size, the representative of `a` does.
pub open spec fn merge(labels: Seq<int>, a: int, b: int) -> Seq<int> {
    let ra = labels[a];
    let rb = labels[b];
    if ra == rb {
        labels
    } else if class_size(labels, ra) < class_size(labels, rb) {
        relabel(labels, ra, rb)
    } else {
        relabel(labels, rb, ra)
    }
}

/// The sizes of the clusters whose representative is below `k`, by increasing
/// representative.
pub open spec fn sizes_upto(labels: Seq<int>, k: int) -> Seq<nat>
    decreases k,
{
    if k <= 0 {
        Seq::empty()
    } else if labels[k - 1] == k - 1 {
        sizes_upto(labels, k - 1).push(class_size(labels, k - 1))
    } else {
        sizes_upto(labels, k - 1)
    }
}

/// The sizes of all clusters, one entry per cluster, by increasing
/// representative.
pub open spec fn sizes(labels: Seq<int>) -> Seq<nat> {
    sizes_upto(labels, labels.len() as int)
}

/// The sum of a sequence of sizes.
pub open spec fn total(values: Seq<nat>) -> nat
    decreases values.len(),
{
    if values.len() == 0 {
        0
    } else {
        total(values.drop_last()) + values.last()
    }
}

/// The number of sites below `m` whose label is below `k`.
pub open spec fn count_below(labels: Seq<int>, k: int, m: int) -> nat
    decreases m,
{
    if m <= 0 {
        0
    } else {
        count_below(labels, k, m - 1) + if labels[m - 1] < k {
            1nat
        } else {
            0nat
        }
    }
}

/// Among the first `k` sites at most `k` carry a given label.
pub proof fn lemma_count_bound(labels: Seq<int>, r: int, k: int)
    requires
        0 <= k,
    ensures
        count_upto(labels, r, k) <= k,
    decreases k,
{
    if k > 0 {
        lemma_count_bound(labels, r, k - 1);
    }
}

/// Two different labels share the first `k` sites between them.
pub proof fn lemma_count_two(labels: Seq<int>, a: int, b: int, k: int)
    requires
        0 <= k,
        a != b,
    ensures
        count_upto(labels, a, k) + count_upto(labels, b, k) <= k,
    decreases k,
{
    if k > 0 {
        lemma_count_two(labels, a, b, k - 1);
    }
}

/// A label that some site below `k` carries is counted at least once.
pub proof fn lemma_count_witness(labels: Seq<int>, r: int, k: int, i: int)
    requires
        0 <= i < k,
        labels[i] == r,
    ensures
        count_upto(labels, r, k) >= 1,
    decreases k,
{
    if i < k - 1 {
        lemma_count_witness(labels, r, k - 1, i);
    }
}

/// A label that no site below `k` carries is counted zero times.
pub proof fn lemma_count_absent(labels: Seq<int>, r: int, k: int)
    requires
        forall|i: int| 0 <= i < k ==> labels[i] != r,
    ensures
        count_upto(labels, r, k) == 0,
    decreases k,
{
    if k > 0 {
        lemma_count_absent(labels, r, k - 1);
    }
}

/// A label that every site below `k` carries is counted `k` times.
pub proof fn lemma_count_all(labels: Seq<int>, r: int, k: int)
    requires
        0 <= k,
        forall|i: int| 0 <= i < k ==> labels[i] == r,
    ensures
        count_upto(labels, r, k) == k,
    decreases k,
{
    if k > 0 {
        lemma_count_all(labels, r, k - 1);
    }
}

/// Labellings that agree on the first `k` sites give the same counts there.
pub proof fn lemma_count_agree(first: Seq<int>, second: Seq<int>, r: int, k: int)
    requires
        forall|i: int| 0 <= i < k ==> first[i] == second[i],
    ensures
        count_upto(first, r, k) == count_upto(second, r, k),
    decreases k,
{
    if k > 0 {
        lemma_count_agree(first, second, r, k - 1);
    }
}

/// Counts after relabelling: the new label gathers the sites of both, the old
/// one loses all of its sites, and every other label keeps its own.
pub proof fn lemma_count_relabel(labels: Seq<int>, from: int, to: int, r: int, k: int)
    requires
        from != to,
        0 <= k <= labels.len(),
    ensures
        count_upto(relabel(labels, from, to), r, k) == if r == to {
            count_upto(labels, to, k) + count_upto(labels, from, k)
        } else if r == from {
            0
        } else {
            count_upto(labels, r, k)
        },
    decreases k,
{
    if k > 0 {
        lemma_count_relabel(labels, from, to, r, k - 1);
    }
}

/// Splitting the sites labelled below `k + 1` into those labelled below `k`
/// and those labelled `k`.
pub proof fn lemma_count_below_step(labels: Seq<int>, k: int, m: int)
    ensures
        count_below(labels, k + 1, m) == count_below(labels, k, m) + count_upto(labels, k, m),
    decreases m,
{
    if m > 0 {
        lemma_count_below_step(labels, k, m - 1);
    }
}

/// No site is labelled below the smallest label.
pub proof fn lemma_count_below_none(labels: Seq<int>, k: int, m: int)
    requires
        forall|i: int| 0 <= i < m ==> k <= labels[i],
    ensures
        count_below(labels, k, m) == 0,
    decreases m,
{
    if m > 0 {
        lemma_count_below_none(labels, k, m - 1);
    }
}

/// Every site is labelled below a bound on all labels.
pub proof fn lemma_count_below_all(labels: Seq<int>, k: int, m: int)
    requires
        0 <= m,
        forall|i: int| 0 <= i < m ==> labels[i] < k,
    ensures
        count_below(labels, k, m) == m,
    decreases m,
{
    if m > 0 {
        lemma_count_below_all(labels, k, m - 1);
    }
}

/// The sizes of the clusters represented below `k` add up to the number of
/// sites labelled below `k`.
pub proof fn lemma_sizes_upto_total(labels: Seq<int>, k: int)
    requires
        well_labelled(labels),
        0 <= k <= labels.len(),
    ensures
        total(sizes_upto(labels, k)) == count_below(labels, k, labels.len() as int),
    decreases k,
{
    let n = labels.len() as int;
    if k == 0 {
        lemma_count_below_none(labels, 0, n);
    } else {
        lemma_sizes_upto_total(labels, k - 1);
        lemma_count_below_step(labels, k - 1, n);
        let before = sizes_upto(labels, k - 1);
        if labels[k - 1] == k - 1 {
            let size = class_size(labels, k - 1);
            assert(before.push(size).drop_last() =~= before);
        } else {
            assert forall|i: int| 0 <= i < n implies labels[i] != k - 1 by {
                if labels[i] == k - 1 {
                    assert(labels[labels[i]] == labels[i]);
                }
            }
            lemma_count_absent(labels, k - 1, n);
        }
    }
}

/// The cluster sizes of a partition add up to the number of its sites.
pub proof fn lemma_sizes_total(labels: Seq<int>)
    requires
        well_labelled(labels),
    ensures
        total(sizes(labels)) == labels.len(),
{
    let n = labels.len() as int;
    lemma_sizes_upto_total(labels, n);
    lemma_count_below_all(labels, n, n);
}

/// Every cluster holds at least its representative and at most all sites.
pub proof fn lemma_class_size_bounds(labels: Seq<int>, r: int)
    requires
        0 <= r < labels.len(),
        labels[r] == r,
    ensures
        1 <= class_size(labels, r) <= labels.len(),
{
    lemma_count_witness(labels, r, labels.len() as int, r);
    lemma_count_bound(labels, r, labels.len() as int);
}

/// In the partition into singletons every cluster has one site.
pub proof fn lemma_singletons(n: nat)
    ensures
        well_labelled(singletons(n)),
        sizes(singletons(n)) == Seq::new(n, |i: int| 1nat),
{
    let labels = singletons(n);
    lemma_singletons_upto(n, n as int);
    assert(sizes_upto(labels, n as int) =~= Seq::new(n, |i: int| 1nat));
}

/// The first `k` clusters of the partition into singletons have one site each.
proof fn lemma_singletons_upto(n: nat, k: int)
    requires
        0 <= k <= n,
    ensures
        sizes_upto(singletons(n), k).len() == k,
        forall|j: int| 0 <= j < k ==> #[trigger] sizes_upto(singletons(n), k)[j] == 1,
    decreases k,
{
    if k > 0 {
        lemma_singletons_upto(n, k - 1);
        lemma_singleton_size(n, k - 1, n as int);
    }
}

/// In the partition into singletons a site is counted once from itself on.
proof fn lemma_singleton_size(n: nat, r: int, k: int)
    requires
        0 <= r < n,
        0 <= k <= n,
    ensures
        count_upto(singletons(n), r, k) == if r < k {
            1nat
        } else {
            0nat
        },
    decreases k,
{
    if k > 0 {
        lemma_singleton_size(n, r, k - 1);
    }
}

/// A partition with all sites in one cluster has that one cluster, of all
/// the sites.
pub proof fn lemma_all_joined(labels: Seq<int>)
    requires
        well_labelled(labels),
        labels.len() > 0,
        all_joined(labels),
    ensures
        sizes(labels) == seq![labels.len()],
{
    let n = labels.len() as int;
    let r = labels[0];
    assert(labels[r] == r);
    lemma_count_all(labels, r, n);
    lemma_all_joined_upto(labels, n);
    assert(sizes_upto(labels, n) =~= seq![labels.len()]);
}

/// The clusters represented below `k`, when all sites carry one label.
proof fn lemma_all_joined_upto(labels: Seq<int>, k: int)
    requires
        well_labelled(labels),
        labels.len() > 0,
        all_joined(labels),
        0 <= k <= labels.len(),
    ensures
        sizes_upto(labels, k) == if labels[0] < k {
            seq![class_size(labels, labels[0])]
        } else {
            Seq::<nat>::empty()
        },
    decreases k,
{
    if k > 0 {
        lemma_all_joined_upto(labels, k - 1);
        let r = labels[0];
        assert(labels[r] == r);
        assert(labels[k - 1] == r);
        if r == k - 1 {
            assert(Seq::<nat>::empty().push(class_size(labels, r)) =~= seq![class_size(labels, r)]);
        }
    }
}

/// Joining two clusters gives a partition again, in which two sites share a
/// cluster exactly when they did before or when one lay with `a` and the
/// other with `b`.
pub proof fn lemma_merge(labels: Seq<int>, a: int, b: int)
    requires
        well_labelled(labels),
        0 <= a < labels.len(),
        0 <= b < labels.len(),
    ensures
        well_labelled(merge(labels, a, b)),
        merge(labels, a, b).len() == labels.len(),
        merge(labels, a, b)[a] == merge(labels, a, b)[b],
        forall|x: int, y: int|
            0 <= x < labels.len() && 0 <= y < labels.len() ==> (merge(labels, a, b)[x] == merge(
                labels,
                a,
                b,
            )[y] <==> {
                ||| labels[x] == labels[y]
                ||| (labels[x] == labels[a] && labels[y] == labels[b])
                ||| (labels[x] == labels[b] && labels[y] == labels[a])
            }),
{
    let ra = labels[a];
    let rb = labels[b];
    assert(labels[ra] == ra);
    assert(labels[rb] == rb);
    let merged = merge(labels, a, b);
    assert forall|i: int| 0 <= i < merged.len() implies {
        &&& 0 <= #[trigger] merged[i] < merged.len()
        &&& merged[merged[i]] == merged[i]
    } by {
        assert(labels[labels[i]] == labels[i]);
    }
}

/// Joining `a` with `b` and joining `b` with `a` put the same sites together.
pub proof fn lemma_merge_commutes(labels: Seq<int>, a: int, b: int)
    requires
        well_labelled(labels),
        0 <= a < labels.len(),
        0 <= b < labels.len(),
    ensures
        forall|x: int, y: int|
            0 <= x < labels.len() && 0 <= y < labels.len() ==> (merge(labels, a, b)[x] == merge(
                labels,
                a,
                b,
            )[y] <==> merge(labels, b, a)[x] == merge(labels, b, a)[y]),
{
    lemma_merge(labels, a, b);
    lemma_merge(labels, b, a);
}

/// Two joins put the same sites together whichever is made first.
pub proof fn lemma_merge_order(labels: Seq<int>, a: int, b: int, c: int, d: int)
    requires
        well_labelled(labels),
        0 <= a < labels.len(),
        0 <= b < labels.len(),
        0 <= c < labels.len(),
        0 <= d < labels.len(),
    ensures
        forall|x: int, y: int|
            0 <= x < labels.len() && 0 <= y < labels.len() ==> (merge(merge(labels, a, b), c, d)[x]
                == merge(merge(labels, a, b), c, d)[y] <==> merge(merge(labels, c, d), a, b)[x]
                == merge(merge(labels, c, d), a, b)[y]),
{
    let first = merge(labels, a, b);
    let second = merge(labels, c, d);
    lemma_merge(labels, a, b);
    lemma_merge(labels, c, d);
    lemma_merge(first, c, d);
    lemma_merge(second, a, b);
}

} // verus!
