//! The cluster tracker: a disjoint-set forest over the sites `0..n`.
//!
//! The forest joins by size and compresses paths on lookup. Its view is the
//! labelling of the sites by the root of their tree, so that a lookup leaves
//! the view as it is and a join changes it by one [`merge`].

use crate::partition::{
    class_size, lemma_class_size_bounds, lemma_count_absent, lemma_count_agree,
    lemma_count_relabel, lemma_count_two, lemma_merge, lemma_sizes_total, merge, relabel,
    singletons, sizes, sizes_upto, total, well_labelled,
};
use vstd::prelude::*;

verus! {

/// A partition of the sites `0..n` into clusters that can only grow coarser.
pub struct ClusterTracker {
    /// The parent of each site in the forest; a root is its own parent.
    parent: Vec<usize>,
    /// For each root, the number of sites in its tree.
    size: Vec<usize>,
    /// For each site, the root of its tree.
    labels: Ghost<Seq<int>>,
    /// For each site, a bound on the length of any path that leads up to it.
    height: Ghost<Seq<nat>>,
}

/// The sizes as natural numbers.
pub open spec fn as_nats(values: Seq<usize>) -> Seq<nat> {
    values.map_values(|v: usize| v as nat)
}

/// What ties the forest to its labelling: labels are constant along parent
/// links, roots are the sites that label themselves, heights grow towards the
/// root and stay below the size recorded there, and that size is the number
/// of sites that carry the root's label.
spec fn forest(parent: Seq<usize>, size: Seq<usize>, labels: Seq<int>, height: Seq<nat>) -> bool {
    let n = parent.len();
    &&& size.len() == n
    &&& labels.len() == n
    &&& height.len() == n
    &&& well_labelled(labels)
    &&& forall|i: int|
        0 <= i < n ==> {
            &&& (#[trigger] parent[i]) < n
            &&& labels[parent[i] as int] == labels[i]
            &&& (parent[i] == i <==> labels[i] == i)
            &&& (parent[i] != i ==> height[i] < height[parent[i] as int] && height[i]
                < height[labels[i]])
            &&& (parent[i] == i ==> height[i] < size[i] && size[i] == class_size(labels, i))
        }
}

/// Every height in a forest is below the number of sites.
proof fn lemma_height_bound(
    parent: Seq<usize>,
    size: Seq<usize>,
    labels: Seq<int>,
    height: Seq<nat>,
    i: int,
)
    requires
        forest(parent, size, labels, height),
        0 <= i < parent.len(),
    ensures
        height[i] < parent.len(),
{
    let r = labels[i];
    assert(labels[r] == r);
    assert(parent[r] < parent.len());
    assert(parent[i] < parent.len());
    lemma_class_size_bounds(labels, r);
}

/// Pointing a site straight at the root of its tree keeps the forest and its
/// labelling.
proof fn lemma_compress(
    parent: Seq<usize>,
    size: Seq<usize>,
    labels: Seq<int>,
    height: Seq<nat>,
    site: int,
)
    requires
        forest(parent, size, labels, height),
        parent.len() <= usize::MAX,
        0 <= site < parent.len(),
        labels[site] != site,
    ensures
        forest(parent.update(site, labels[site] as usize), size, labels, height),
{
    let root = labels[site];
    let pointed = parent.update(site, root as usize);
    assert(labels[root] == root);
    assert(parent[site] != site);
    assert forall|i: int| 0 <= i < pointed.len() implies {
        &&& (#[trigger] pointed[i]) < pointed.len()
        &&& labels[pointed[i] as int] == labels[i]
        &&& (pointed[i] == i <==> labels[i] == i)
        &&& (pointed[i] != i ==> height[i] < height[pointed[i] as int] && height[i]
            < height[labels[i]])
        &&& (pointed[i] == i ==> height[i] < size[i] && size[i] == class_size(labels, i))
    } by {
        assert(parent[i] < parent.len());
    }
}

/// Hanging the root `loser` below the root `winner` gives the forest of the
/// labelling in which the sites of `loser` carry the label `winner`.
proof fn lemma_link(
    parent: Seq<usize>,
    size: Seq<usize>,
    labels: Seq<int>,
    height: Seq<nat>,
    winner: int,
    loser: int,
)
    requires
        forest(parent, size, labels, height),
        parent.len() <= usize::MAX,
        0 <= winner < parent.len(),
        0 <= loser < parent.len(),
        winner != loser,
        labels[winner] == winner,
        labels[loser] == loser,
    ensures
        size[winner] + size[loser] <= parent.len(),
        forest(
            parent.update(loser, winner as usize),
            size.update(winner, (size[winner] + size[loser]) as usize),
            relabel(labels, loser, winner),
            height.update(
                winner,
                if height[winner] > height[loser] {
                    height[winner]
                } else {
                    height[loser] + 1
                },
            ),
        ),
{
    let n = parent.len() as int;
    assert(parent[winner] == winner);
    assert(parent[loser] == loser);
    lemma_count_two(labels, winner, loser, n);
    let linked = parent.update(loser, winner as usize);
    let grown = size.update(winner, (size[winner] + size[loser]) as usize);
    let joined = relabel(labels, loser, winner);
    let raised = height.update(
        winner,
        if height[winner] > height[loser] {
            height[winner]
        } else {
            height[loser] + 1
        },
    );
    assert forall|i: int| 0 <= i < n implies {
        &&& 0 <= #[trigger] joined[i] < n
        &&& joined[joined[i]] == joined[i]
    } by {
        assert(labels[labels[i]] == labels[i]);
    }
    assert forall|i: int| 0 <= i < n implies {
        &&& (#[trigger] linked[i]) < n
        &&& joined[linked[i] as int] == joined[i]
        &&& (linked[i] == i <==> joined[i] == i)
        &&& (linked[i] != i ==> raised[i] < raised[linked[i] as int] && raised[i]
            < raised[joined[i]])
        &&& (linked[i] == i ==> raised[i] < grown[i] && grown[i] == class_size(joined, i))
    } by {
        assert(parent[i] < n);
        let up = parent[i] as int;
        let top = labels[i];
        assert(labels[top] == top);
        assert(parent[top] == top);
        assert(parent[up] < n);
        lemma_count_relabel(labels, loser, winner, i, n);
    }
}

/// Adding a site that labels itself gives a forest with one more singleton.
proof fn lemma_grow(parent: Seq<usize>, size: Seq<usize>, labels: Seq<int>, height: Seq<nat>)
    requires
        forest(parent, size, labels, height),
        parent.len() < usize::MAX,
    ensures
        forest(
            parent.push(parent.len() as usize),
            size.push(1),
            labels.push(parent.len() as int),
            height.push(0),
        ),
{
    let n = parent.len() as int;
    let more_parent = parent.push(n as usize);
    let more_size = size.push(1);
    let more_labels = labels.push(n);
    let more_height = height.push(0);
    assert forall|i: int| 0 <= i < n + 1 implies {
        &&& 0 <= #[trigger] more_labels[i] < n + 1
        &&& more_labels[more_labels[i]] == more_labels[i]
    } by {
        if i < n {
            assert(labels[labels[i]] == labels[i]);
        }
    }
    assert forall|i: int| 0 <= i < n + 1 implies {
        &&& (#[trigger] more_parent[i]) < n + 1
        &&& more_labels[more_parent[i] as int] == more_labels[i]
        &&& (more_parent[i] == i <==> more_labels[i] == i)
        &&& (more_parent[i] != i ==> more_height[i] < more_height[more_parent[i] as int]
            && more_height[i] < more_height[more_labels[i]])
        &&& (more_parent[i] == i ==> more_height[i] < more_size[i] && more_size[i] == class_size(
            more_labels,
            i,
        ))
    } by {
        if i < n {
            assert(parent[i] < n);
            assert(labels[labels[i]] == labels[i]);
            lemma_count_agree(more_labels, labels, i, n);
        } else {
            lemma_count_absent(more_labels, n, n);
        }
    }
}

impl View for ClusterTracker {
    type V = Seq<int>;

    /// The labelling of the sites by the representative of their cluster.
    closed spec fn view(&self) -> Seq<int> {
        self.labels@
    }
}

impl ClusterTracker {
    /// The internal invariant that ties the forest to the view.
    pub closed spec fn inv(&self) -> bool {
        forest(self.parent@, self.size@, self.labels@, self.height@)
    }

    /// Well-formedness: the view is a partition and the forest agrees with it.
    pub open spec fn wf(&self) -> bool {
        well_labelled(self@) && self.inv()
    }

    /// Creates a tracker of `sites` sites, each alone in its cluster.
    pub fn new(sites: usize) -> (tracker: Self)
        ensures
            tracker.wf(),
            tracker@ == singletons(sites as nat),
    {
        let mut tracker = ClusterTracker {
            parent: Vec::with_capacity(sites),
            size: Vec::with_capacity(sites),
            labels: Ghost(Seq::empty()),
            height: Ghost(Seq::empty()),
        };
        let mut made: usize = 0;
        while made < sites
            invariant
                made <= sites,
                tracker.wf(),
                tracker@ =~= singletons(made as nat),
            decreases sites - made,
        {
            tracker.make_set();
            made = made + 1;
        }
        tracker
    }

    /// The number of sites.
    pub fn len(&self) -> (n: usize)
        requires
            self.wf(),
        ensures
            n == self@.len(),
    {
        self.parent.len()
    }

    /// Adds a site, alone in its cluster, and returns it.
    pub fn make_set(&mut self) -> (site: usize)
        requires
            old(self).wf(),
        ensures
            final(self).wf(),
            site == old(self)@.len(),
            final(self)@ == old(self)@.push(site as int),
    {
        let site = self.parent.len();
        let ghost parent = self.parent@;
        self.parent.push(site);
        self.size.push(1);
        proof {
            assert(self.parent.len() == parent.len() + 1);
            lemma_grow(parent, old(self).size@, self.labels@, self.height@);
        }
        self.labels = Ghost(self.labels@.push(site as int));
        self.height = Ghost(self.height@.push(0));
        site
    }

    /// Returns the representative of the cluster of `site`.
    ///
    /// The partition stays as it is; the path from `site` to the root is
    /// shortened for later lookups.
    pub fn find(&mut self, site: usize) -> (root: usize)
        requires
            old(self).wf(),
            site < old(self)@.len(),
        ensures
            final(self).wf(),
            final(self)@ == old(self)@,
            root == old(self)@[site as int],
            root == old(self)@[root as int],
    {
        let mut root = site;
        while self.parent[root] != root
            invariant
                self.wf(),
                self@ == old(self)@,
                site < self@.len(),
                root < self@.len(),
                self@[root as int] == self@[site as int],
            decreases self@.len() - self.height@[root as int],
        {
            proof {
                lemma_height_bound(
                    self.parent@,
                    self.size@,
                    self.labels@,
                    self.height@,
                    self.parent@[root as int] as int,
                );
            }
            root = self.parent[root];
        }
        let mut cur = site;
        while cur != root
            invariant
                self.wf(),
                self@ == old(self)@,
                cur < self@.len(),
                root < self@.len(),
                self@[cur as int] == root,
                self@[site as int] == root,
            decreases self@.len() - self.height@[cur as int],
        {
            proof {
                assert(self.parent.len() <= usize::MAX);
                lemma_compress(
                    self.parent@,
                    self.size@,
                    self.labels@,
                    self.height@,
                    cur as int,
                );
                lemma_height_bound(
                    self.parent@,
                    self.size@,
                    self.labels@,
                    self.height@,
                    self.parent@[cur as int] as int,
                );
            }
            let next = self.parent[cur];
            self.parent.set(cur, root);
            cur = next;
        }
        root
    }

    /// Joins the clusters of the sites `a` and `b`.
    ///
    /// Nothing changes when the two already share a cluster.
    pub fn union(&mut self, a: usize, b: usize)
        requires
            old(self).wf(),
            a < old(self)@.len(),
            b < old(self)@.len(),
        ensures
            final(self).wf(),
            final(self)@ == merge(old(self)@, a as int, b as int),
    {
        let root_a = self.find(a);
        let root_b = self.find(b);
        if root_a == root_b {
            return ;
        }
        let size_a = self.size[root_a];
        let size_b = self.size[root_b];
        let (winner, loser) = if size_a < size_b {
            (root_b, root_a)
        } else {
            (root_a, root_b)
        };
        proof {
            assert(self.parent.len() <= usize::MAX);
            assert(self.parent@[root_a as int] < self.parent@.len());
            assert(self.parent@[root_b as int] < self.parent@.len());
            lemma_link(
                self.parent@,
                self.size@,
                self.labels@,
                self.height@,
                winner as int,
                loser as int,
            );
            lemma_merge(self.labels@, a as int, b as int);
        }
        let ghost low = self.height@[loser as int];
        let ghost high = self.height@[winner as int];
        self.parent.set(loser, winner);
        self.size.set(winner, size_a + size_b);
        self.labels = Ghost(relabel(self.labels@, loser as int, winner as int));
        self.height = Ghost(
            self.height@.update(
                winner as int,
                if high > low {
                    high
                } else {
                    low + 1
                },
            ),
        );
    }

    /// Lists the size of every cluster, by increasing representative.
    pub fn cluster_sizes(&self) -> (listed: Vec<usize>)
        requires
            self.wf(),
        ensures
            as_nats(listed@) == sizes(self@),
            total(sizes(self@)) == self@.len(),
    {
        let n = self.parent.len();
        let mut listed: Vec<usize> = Vec::new();
        let mut site: usize = 0;
        while site < n
            invariant
                self.wf(),
                n == self@.len(),
                site <= n,
                as_nats(listed@) =~= sizes_upto(self@, site as int),
            decreases n - site,
        {
            if self.parent[site] == site {
                listed.push(self.size[site]);
            }
            site = site + 1;
        }
        proof {
            lemma_sizes_total(self@);
        }
        listed
    }
}

} // verus!
