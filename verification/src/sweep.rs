//! The sweep over offset classes that bonds the sites of one realization.
//!
//! The sweep visits the offset classes `(dx, dy)` of the lattice row by row,
//! leaving out `(0, 0)`. Within a class it walks the sites from site `0`
//! upwards. Each step takes a skip: the walk passes over that many sites,
//! bonds the site it reaches to its partner under the class's offset, and
//! goes on behind it. A step that reaches the end of the lattice ends the
//! class. What the sweep does is a function of the lattice's side and of the
//! skips alone; [`SweepState`] is that function, and [`Sweep`] computes it.

use crate::clusters::ClusterTracker;
use crate::lattice::{
    bond_partner, lemma_partner_bounds, lemma_periodic, partner, periodic, periodic_offset,
    side_fits,
};
use crate::norms::squares_fit;
use crate::partition::{
    lemma_merge, lemma_sizes_total, lemma_singletons, merge, singletons, sizes, total,
    well_labelled,
};
use vstd::prelude::*;

verus! {

/// A moment of a sweep: the class being walked, the next site to examine and
/// the partition reached so far.
pub struct SweepState {
    /// The side of the lattice.
    pub side: nat,
    /// The row offset of the current class.
    pub dx: nat,
    /// The column offset of the current class.
    pub dy: nat,
    /// The first site of the current class that is still to be examined.
    pub site: nat,
    /// The partition of the sites, as a labelling.
    pub labels: Seq<int>,
}

impl SweepState {
    /// The number of sites of the lattice.
    pub open spec fn sites(self) -> nat {
        self.side * self.side
    }

    /// Whether every class has been walked.
    pub open spec fn done(self) -> bool {
        self.dx >= self.side
    }

    /// What holds of every moment of a sweep.
    pub open spec fn valid(self) -> bool {
        &&& side_fits(self.side)
        &&& self.labels.len() == self.sites()
        &&& well_labelled(self.labels)
        &&& if self.done() {
            self.dx == self.side && self.dy == 0 && self.site == 0
        } else {
            self.dy < self.side && self.site < self.sites() && (self.dx > 0 || self.dy > 0)
        }
    }

    /// The state at the start of the class that follows the current one.
    pub open spec fn next_class(self) -> SweepState {
        if self.dy + 1 < self.side {
            SweepState {
                side: self.side,
                dx: self.dx,
                dy: self.dy + 1,
                site: 0,
                labels: self.labels,
            }
        } else {
            SweepState {
                side: self.side,
                dx: self.dx + 1,
                dy: 0,
                site: 0,
                labels: self.labels,
            }
        }
    }

    /// The state after one step that passes over `skip` sites.
    ///
    /// Where the walk leaves the lattice, the class ends and nothing is
    /// bonded. Otherwise the site reached is bonded to its partner, and the
    /// class ends if that site was the last.
    pub open spec fn step(self, skip: nat) -> SweepState {
        let reached = self.site + skip;
        if reached >= self.sites() {
            self.next_class()
        } else {
            let bonded = SweepState {
                side: self.side,
                dx: self.dx,
                dy: self.dy,
                site: reached + 1,
                labels: merge(
                    self.labels,
                    reached as int,
                    partner(self.side, self.dx, self.dy, reached) as int,
                ),
            };
            if reached + 1 >= self.sites() {
                bonded.next_class()
            } else {
                bonded
            }
        }
    }
}

/// The state in which a sweep of a lattice of side `side` begins: every site
/// alone in its cluster, at the first site of the first class.
pub open spec fn start(side: nat) -> SweepState {
    let origin = SweepState { side, dx: 0, dy: 0, site: 0, labels: singletons(side * side) };
    if side == 0 {
        origin
    } else {
        origin.next_class()
    }
}

/// The state that a sweep reaches on the skips `skips`, taken in order.
/// Skips that come after the last class are not taken.
pub open spec fn run(side: nat, skips: Seq<usize>) -> SweepState
    decreases skips.len(),
{
    if skips.len() == 0 {
        start(side)
    } else {
        let before = run(side, skips.drop_last());
        if before.done() {
            before
        } else {
            before.step(skips.last() as nat)
        }
    }
}

/// A sweep begins in a valid state.
pub proof fn lemma_start_valid(side: nat)
    requires
        side_fits(side),
    ensures
        start(side).valid(),
{
    lemma_singletons(side * side);
    assert(side >= 1 ==> side * side >= 1) by (nonlinear_arith);
}

/// A step leads from a valid state to a valid state, and the walk moves on:
/// either to a later class, or to a later site of the same class.
pub proof fn lemma_step_valid(state: SweepState, skip: nat)
    requires
        state.valid(),
        !state.done(),
    ensures
        state.step(skip).valid(),
        state.step(skip).side == state.side,
        state.step(skip).dx > state.dx || (state.step(skip).dx == state.dx && state.step(skip).dy
            > state.dy) || (state.step(skip).dx == state.dx && state.step(skip).dy == state.dy
            && state.step(skip).site > state.site),
{
    let reached = state.site + skip;
    if reached < state.sites() {
        lemma_partner_bounds(state.side, state.dx, state.dy, reached);
        lemma_merge(
            state.labels,
            reached as int,
            partner(state.side, state.dx, state.dy, reached) as int,
        );
    }
}

/// Every state that a sweep reaches is valid.
pub proof fn lemma_run_valid(side: nat, skips: Seq<usize>)
    requires
        side_fits(side),
    ensures
        run(side, skips).valid(),
        run(side, skips).side == side,
    decreases skips.len(),
{
    if skips.len() == 0 {
        lemma_start_valid(side);
    } else {
        lemma_run_valid(side, skips.drop_last());
        let before = run(side, skips.drop_last());
        if !before.done() {
            lemma_step_valid(before, skips.last() as nat);
        }
    }
}

/// At every moment of a sweep the cluster sizes add up to the number of
/// sites of the lattice.
pub proof fn lemma_run_total(side: nat, skips: Seq<usize>)
    requires
        side_fits(side),
    ensures
        total(sizes(run(side, skips).labels)) == side * side,
{
    lemma_run_valid(side, skips);
    lemma_sizes_total(run(side, skips).labels);
}

/// One more skip, taken before the last class has ended, is one more step.
pub proof fn lemma_run_push(side: nat, skips: Seq<usize>, skip: usize)
    requires
        !run(side, skips).done(),
    ensures
        run(side, skips.push(skip)) == run(side, skips).step(skip as nat),
{
    assert(skips.push(skip).drop_last() =~= skips);
}

/// A sweep in progress.
pub struct Sweep {
    side: usize,
    sites: usize,
    dx: usize,
    dy: usize,
    site: usize,
    clusters: ClusterTracker,
}

impl View for Sweep {
    type V = SweepState;

    closed spec fn view(&self) -> SweepState {
        SweepState {
            side: self.side as nat,
            dx: self.dx as nat,
            dy: self.dy as nat,
            site: self.site as nat,
            labels: self.clusters@,
        }
    }
}

impl Sweep {
    /// The internal invariant: the tracker is well-formed and the number of
    /// sites is held ready.
    pub closed spec fn inv(&self) -> bool {
        &&& self.clusters.wf()
        &&& self.sites == self.side * self.side
    }

    /// Well-formedness: the state is a valid moment of a sweep.
    pub open spec fn wf(&self) -> bool {
        self@.valid() && self.inv()
    }

    /// Begins the sweep of a lattice of side `side`.
    pub fn new(side: usize) -> (sweep: Self)
        requires
            side_fits(side as nat),
        ensures
            sweep.wf(),
            sweep@ == start(side as nat),
    {
        proof {
            lemma_start_valid(side as nat);
        }
        let sites = side * side;
        let clusters = ClusterTracker::new(sites);
        if side == 0 {
            Sweep { side, sites, dx: 0, dy: 0, site: 0, clusters }
        } else if side == 1 {
            Sweep { side, sites, dx: 1, dy: 0, site: 0, clusters }
        } else {
            Sweep { side, sites, dx: 0, dy: 1, site: 0, clusters }
        }
    }

    /// The side of the lattice.
    pub fn side(&self) -> (side: usize)
        ensures
            side == self@.side,
    {
        self.side
    }

    /// Tells whether every class has been walked.
    pub fn is_done(&self) -> (done: bool)
        ensures
            done == self@.done(),
    {
        self.dx >= self.side
    }

    /// The offset of the current class.
    pub fn offset(&self) -> (class: (usize, usize))
        ensures
            class.0 == self@.dx,
            class.1 == self@.dy,
    {
        (self.dx, self.dy)
    }

    /// The periodic lengths of the two offsets of the current class: what
    /// the distance of the class is computed from.
    pub fn periodic_offset(&self) -> (lengths: (usize, usize))
        requires
            self.wf(),
            !self@.done(),
        ensures
            lengths.0 == periodic(self@.dx, self@.side),
            lengths.1 == periodic(self@.dy, self@.side),
            squares_fit(lengths.0, lengths.1),
            lengths.0 > 0 || lengths.1 > 0,
    {
        proof {
            lemma_periodic(self.side, self.dx, self.dy);
        }
        (periodic_offset(self.dx, self.side), periodic_offset(self.dy, self.side))
    }

    /// The first site of the current class that is still to be examined.
    pub fn site(&self) -> (site: usize)
        ensures
            site == self@.site,
    {
        self.site
    }

    /// Ends the current class without examining the sites that are left.
    pub fn pass_class(&mut self)
        requires
            old(self).wf(),
            !old(self)@.done(),
        ensures
            final(self).wf(),
            final(self)@ == old(self)@.next_class(),
    {
        self.site = 0;
        if self.dy + 1 < self.side {
            self.dy = self.dy + 1;
        } else {
            self.dx = self.dx + 1;
            self.dy = 0;
        }
    }

    /// Takes one step: passes over `skip` sites, bonds the site reached to
    /// its partner, and goes on behind it. Returns whether the class goes on.
    ///
    /// The sites are counted with saturation, so that a skip as large as
    /// `usize::MAX` ends the class and bonds nothing.
    pub fn advance(&mut self, skip: usize) -> (more: bool)
        requires
            old(self).wf(),
            !old(self)@.done(),
        ensures
            final(self).wf(),
            final(self)@ == old(self)@.step(skip as nat),
            more == (final(self)@.dx == old(self)@.dx && final(self)@.dy == old(self)@.dy),
    {
        proof {
            lemma_step_valid(self@, skip as nat);
        }
        let reached = self.site.saturating_add(skip);
        if reached >= self.sites {
            self.pass_class();
            return false;
        }
        let other = bond_partner(self.side, self.dx, self.dy, reached);
        self.clusters.union(reached, other);
        let next = reached.saturating_add(1);
        if next >= self.sites {
            self.pass_class();
            // pass_class resets the site; the bonded labelling stays.
            return false;
        }
        self.site = next;
        true
    }

    /// The partition reached so far.
    pub fn clusters(&self) -> (clusters: &ClusterTracker)
        requires
            self.wf(),
        ensures
            clusters.wf(),
            clusters@ == self@.labels,
    {
        &self.clusters
    }

    /// Ends the sweep and hands out the partition reached.
    pub fn into_clusters(self) -> (clusters: ClusterTracker)
        requires
            self.wf(),
        ensures
            clusters.wf(),
            clusters@ == self@.labels,
    {
        self.clusters
    }
}

} // verus!
