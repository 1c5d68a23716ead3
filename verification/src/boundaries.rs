//! The two extremes of a sweep.
//!
//! A skip of zero bonds the very next site; a skip that reaches past the last
//! site bonds none. Where every nearest neighbour is bonded, the sweep ends
//! with all sites in one cluster; where every skip reaches past the last
//! site, it ends with every site alone. Both are stated twice: of the skips
//! of a sweep, and of the answers that its sampler gave.

use crate::lattice::{lemma_partner_bounds, partner, side_fits};
use crate::partition::{
    all_joined, lemma_all_joined, lemma_merge, lemma_singletons, singletons, sizes,
};
use crate::norms::{Distance, NormType};
use crate::percolation::{Answer, Chance};
use crate::record::{
    asked, class_distance, class_index, classes, distance_of_class, lemma_asked_tells,
    lemma_class_index, lemma_obeyed_at, lemma_step_enters, obeyed,
};
use crate::sweep::{lemma_run_valid, run, SweepState};
use vstd::arithmetic::div_mod::{
    lemma_fundamental_div_mod, lemma_fundamental_div_mod_converse, lemma_small_mod,
};
use vstd::prelude::*;

verus! {

/// Whether the walk is in one of the two classes of nearest neighbours:
/// `(0, 1)`, which joins each site to the next of its row, or `(1, 0)`, which
/// joins it to the next of its column.
pub open spec fn at_neighbours(state: SweepState) -> bool {
    !state.done() && ((state.dx == 0 && state.dy == 1) || (state.dx == 1 && state.dy == 0))
}

/// Every skip that is taken in a class of nearest neighbours is zero.
pub open spec fn neighbours_bond(side: nat, skips: Seq<usize>) -> bool {
    forall|k: int|
        0 <= k < skips.len() && at_neighbours(#[trigger] run(side, skips.take(k))) ==> skips[k]
            == 0
}

/// Every skip reaches past the last site of the lattice.
pub open spec fn skips_saturate(side: nat, skips: Seq<usize>) -> bool {
    forall|k: int| 0 <= k < skips.len() ==> #[trigger] skips[k] >= side * side
}

/// The number of sites of the class `(dx, dy)` that have been walked.
spec fn walked(state: SweepState, dx: nat, dy: nat) -> nat {
    if state.done() || state.dx > dx || (state.dx == dx && state.dy > dy) {
        state.sites()
    } else if state.dx == dx && state.dy == dy {
        state.site
    } else {
        0
    }
}

/// Every walked site of the class `(dx, dy)` shares a cluster with its
/// partner.
spec fn bonded(state: SweepState, dx: nat, dy: nat) -> bool {
    forall|j: int|
        0 <= j < walked(state, dx, dy) ==> #[trigger] state.labels[j] == state.labels[partner(
            state.side,
            dx,
            dy,
            j as nat,
        ) as int]
}

/// A step keeps the bonds of a class, and adds one where it is taken in that
/// class with a skip of zero.
proof fn lemma_step_bonds(state: SweepState, skip: nat, dx: nat, dy: nat)
    requires
        state.valid(),
        !state.done(),
        dx < state.side,
        dy < state.side,
        state.dx == dx && state.dy == dy ==> skip == 0,
        bonded(state, dx, dy),
    ensures
        bonded(state.step(skip), dx, dy),
{
    let after = state.step(skip);
    let reached = state.site + skip;
    if reached < state.sites() {
        let other = partner(state.side, state.dx, state.dy, reached);
        lemma_partner_bounds(state.side, state.dx, state.dy, reached);
        lemma_merge(state.labels, reached as int, other as int);
        assert forall|j: int| 0 <= j < walked(after, dx, dy) implies #[trigger] after.labels[j]
            == after.labels[partner(state.side, dx, dy, j as nat) as int] by {
            lemma_partner_bounds(state.side, dx, dy, j as nat);
            if j < walked(state, dx, dy) {
                assert(state.labels[j] == state.labels[partner(state.side, dx, dy, j as nat) as int]);
            }
        }
    }
}

/// Along a sweep in which the nearest neighbours bond, the bonds of both
/// classes of nearest neighbours hold for every site walked so far.
proof fn lemma_neighbours_prefix(side: nat, skips: Seq<usize>, k: int)
    requires
        side_fits(side),
        side >= 2,
        neighbours_bond(side, skips),
        0 <= k <= skips.len(),
    ensures
        bonded(run(side, skips.take(k)), 0, 1),
        bonded(run(side, skips.take(k)), 1, 0),
    decreases k,
{
    lemma_run_valid(side, skips.take(k));
    if k > 0 {
        lemma_neighbours_prefix(side, skips, k - 1);
        lemma_run_valid(side, skips.take(k - 1));
        assert(skips.take(k).drop_last() =~= skips.take(k - 1));
        let before = run(side, skips.take(k - 1));
        if !before.done() {
            let skip = skips[k - 1] as nat;
            assert(skips.take(k).last() == skips[k - 1]);
            assert(at_neighbours(before) ==> skip == 0);
            lemma_step_bonds(before, skip, 0, 1);
            lemma_step_bonds(before, skip, 1, 0);
        }
    }
}

/// On a lattice where each site shares a cluster with the next of its row
/// and with the next of its column, the site `site` shares one with site `0`.
proof fn lemma_joined_to_origin(side: nat, labels: Seq<int>, site: nat)
    requires
        side >= 1,
        labels.len() == side * side,
        site < side * side,
        forall|j: int|
            0 <= j < side * side ==> #[trigger] labels[j] == labels[partner(side, 0, 1, j as nat) as int],
        forall|j: int|
            0 <= j < side * side ==> #[trigger] labels[j] == labels[partner(side, 1, 0, j as nat) as int],
    ensures
        labels[site as int] == labels[0],
    decreases site,
{
    if site > 0 {
        let s = side as int;
        let x = site as int / s;
        let y = site as int % s;
        lemma_fundamental_div_mod(site as int, s);
        lemma_partner_bounds(side, 0, 0, site);
        assert(s * x == x * s) by (nonlinear_arith);
        if y > 0 {
            let j = site - 1;
            lemma_fundamental_div_mod_converse(j, s, x, y - 1);
            lemma_small_mod(x as nat, side);
            lemma_small_mod(y as nat, side);
            assert(partner(side, 0, 1, j as nat) == site);
            assert(labels[j] == labels[partner(side, 0, 1, j as nat) as int]);
            lemma_joined_to_origin(side, labels, j as nat);
        } else {
            assert(x > 0) by (nonlinear_arith)
                requires
                    site == s * x,
                    site > 0,
                    s >= 1,
            ;
            let j = site - side;
            assert(j == (x - 1) * s) by (nonlinear_arith)
                requires
                    j == site - s,
                    site == x * s,
            ;
            lemma_fundamental_div_mod_converse(j, s, x - 1, 0);
            lemma_small_mod(x as nat, side);
            lemma_small_mod(0, side);
            assert(partner(side, 1, 0, j as nat) == site);
            assert(labels[j] == labels[partner(side, 1, 0, j as nat) as int]);
            lemma_joined_to_origin(side, labels, j as nat);
        }
    }
}

/// A sweep that bonds every nearest neighbour ends with all sites in one
/// cluster: where every skip taken in the classes `(0, 1)` and `(1, 0)` is
/// zero, whatever the skips of the other classes, the sweep that has run to
/// its end leaves one cluster, of all the sites.
pub proof fn lemma_neighbour_bonds_join_all(side: nat, skips: Seq<usize>)
    requires
        side_fits(side),
        neighbours_bond(side, skips),
        run(side, skips).done(),
    ensures
        all_joined(run(side, skips).labels),
        side >= 1 ==> sizes(run(side, skips).labels) == seq![side * side],
{
    let last = run(side, skips);
    lemma_run_valid(side, skips);
    assert(last.labels.len() == side * side);
    if side >= 2 {
        assert(skips.take(skips.len() as int) =~= skips);
        lemma_neighbours_prefix(side, skips, skips.len() as int);
        assert(walked(last, 0, 1) == side * side);
        assert(walked(last, 1, 0) == side * side);
        assert forall|a: int, b: int|
            0 <= a < last.labels.len() && 0 <= b < last.labels.len() implies last.labels[a]
            == last.labels[b] by {
            lemma_joined_to_origin(side, last.labels, a as nat);
            lemma_joined_to_origin(side, last.labels, b as nat);
        }
    } else {
        assert(side * side <= 1) by (nonlinear_arith)
            requires
                side <= 1,
        ;
    }
    assert(all_joined(last.labels));
    if side >= 1 {
        assert(side * side >= 1) by (nonlinear_arith)
            requires
                side >= 1,
        ;
        lemma_all_joined(last.labels);
    }
}

/// A sweep whose every skip is zero ends with all sites in one cluster.
pub proof fn lemma_zero_skips_join_all(side: nat, skips: Seq<usize>)
    requires
        side_fits(side),
        forall|k: int| 0 <= k < skips.len() ==> skips[k] == 0,
        run(side, skips).done(),
    ensures
        all_joined(run(side, skips).labels),
        side >= 1 ==> sizes(run(side, skips).labels) == seq![side * side],
{
    lemma_neighbour_bonds_join_all(side, skips);
}

/// A sweep whose every skip reaches past the last site bonds nothing: at
/// every moment each class is still at its first site and every site is
/// alone in its cluster.
pub proof fn lemma_saturated_skips_join_none(side: nat, skips: Seq<usize>)
    requires
        side_fits(side),
        skips_saturate(side, skips),
    ensures
        run(side, skips).site == 0,
        run(side, skips).labels == singletons(side * side),
        sizes(run(side, skips).labels) == Seq::new(side * side, |i: int| 1nat),
    decreases skips.len(),
{
    lemma_singletons(side * side);
    if skips.len() > 0 {
        let fewer = skips.drop_last();
        assert forall|k: int| 0 <= k < fewer.len() implies #[trigger] fewer[k] >= side * side by {
            assert(fewer[k] == skips[k]);
        }
        lemma_saturated_skips_join_none(side, fewer);
        lemma_run_valid(side, fewer);
        assert(skips[skips.len() - 1] >= side * side);
    }
}

/// Whether the record `answers` shows the chance `chance` wherever the
/// sampler was told the distance `distance`.
pub open spec fn answered_at(answers: Seq<Answer>, distance: Distance, chance: Chance) -> bool {
    forall|i: int|
        0 <= i < answers.len() ==> (#[trigger] answers[i] matches Answer::Entered(d, c) ==> d
            == distance ==> c == chance)
}

/// Whether the record `answers` shows the chance `chance` wherever the
/// sampler was told a distance.
pub open spec fn answered_always(answers: Seq<Answer>, chance: Chance) -> bool {
    forall|i: int|
        0 <= i < answers.len() ==> (#[trigger] answers[i] matches Answer::Entered(d, c) ==> c
            == chance)
}

/// Whether the record `answers` shows a certain bond wherever the sampler
/// was told the distance of a nearest neighbour under the metric `N`.
pub open spec fn nearest_certain<N: NormType>(answers: Seq<Answer>) -> bool {
    &&& answered_at(answers, N::distance(0, 1), Chance::Certain)
    &&& answered_at(answers, N::distance(1, 0), Chance::Certain)
}

/// Whether no draw stands on the record `answers`.
pub open spec fn drew_nothing(answers: Seq<Answer>) -> bool {
    forall|i: int| 0 <= i < answers.len() ==> #[trigger] answers[i] is Entered
}

/// Full connection. A sweep whose sampler says that the bond is certain
/// wherever it is told the distance of a nearest neighbour, `(0, 1)` or
/// `(1, 0)`, ends with all sites in one cluster, whatever it says of the
/// other distances and whatever it draws.
pub proof fn lemma_certain_neighbours_join_all<N: NormType>(
    side: nat,
    chances: Seq<Chance>,
    skips: Seq<usize>,
)
    requires
        side_fits(side),
        run(side, skips).done(),
        chances.len() == classes(side),
        obeyed(side, chances, skips),
        answered_at(asked::<N>(side, chances, skips), N::distance(0, 1), Chance::Certain),
        answered_at(asked::<N>(side, chances, skips), N::distance(1, 0), Chance::Certain),
    ensures
        all_joined(run(side, skips).labels),
        side >= 1 ==> sizes(run(side, skips).labels) == seq![side * side],
{
    lemma_run_valid(side, skips);
    if side >= 2 {
        let record = asked::<N>(side, chances, skips);
        let last = run(side, skips);
        lemma_class_index(last);
        let s = side as int;
        assert(s * s - 1 > s - 1) by (nonlinear_arith)
            requires
                s >= 2,
        ;
        lemma_asked_tells::<N>(side, chances, skips, 0);
        lemma_asked_tells::<N>(side, chances, skips, s - 1);
        vstd::arithmetic::div_mod::lemma_fundamental_div_mod_converse(1, s, 0, 1);
        vstd::arithmetic::div_mod::lemma_fundamental_div_mod_converse(s, s, 1, 0);
        assert(distance_of_class::<N>(side, 0) == N::distance(0, 1));
        assert(distance_of_class::<N>(side, s - 1) == N::distance(1, 0));
        let i = choose|i: int|
            0 <= i < record.len() && record[i] == Answer::Entered(N::distance(0, 1), chances[0]);
        assert(record[i] is Entered);
        let j = choose|j: int|
            0 <= j < record.len() && record[j] == Answer::Entered(
                N::distance(1, 0),
                chances[s - 1],
            );
        assert(record[j] is Entered);
        assert(chances[0] == Chance::Certain);
        assert(chances[s - 1] == Chance::Certain);
        assert forall|k: int|
            0 <= k < skips.len() && at_neighbours(#[trigger] run(side, skips.take(k))) implies skips[k]
            == 0 by {
            let state = run(side, skips.take(k));
            lemma_run_valid(side, skips.take(k));
            lemma_obeyed_at(side, chances, skips, k);
            assert(state.dx * s + state.dy - 1 == if state.dx == 0 {
                0
            } else {
                s - 1
            }) by (nonlinear_arith)
                requires
                    (state.dx == 0 && state.dy == 1) || (state.dx == 1 && state.dy == 0),
            ;
        }
    } else {
        assert forall|k: int|
            0 <= k < skips.len() && at_neighbours(#[trigger] run(side, skips.take(k))) implies skips[k]
            == 0 by {
            lemma_run_valid(side, skips.take(k));
        }
    }
    lemma_neighbour_bonds_join_all(side, skips);
}

/// No connection. A sweep whose sampler says of every class that the bond
/// is negligible bonds nothing and takes no draw: every site is alone in
/// its cluster, and the record holds no draw.
pub proof fn lemma_negligible_classes_join_none<N: NormType>(
    side: nat,
    chances: Seq<Chance>,
    skips: Seq<usize>,
)
    requires
        side_fits(side),
        chances.len() == classes(side),
        obeyed(side, chances, skips),
        answered_always(asked::<N>(side, chances, skips), Chance::Negligible),
    ensures
        run(side, skips).site == 0,
        run(side, skips).labels == singletons(side * side),
        sizes(run(side, skips).labels) == Seq::new(side * side, |i: int| 1nat),
        drew_nothing(asked::<N>(side, chances, skips)),
    decreases skips.len(),
{
    lemma_singletons(side * side);
    lemma_run_valid(side, skips);
    if skips.len() > 0 {
        let fewer = skips.drop_last();
        let before = run(side, fewer);
        let prior = asked::<N>(side, chances, fewer);
        let record = asked::<N>(side, chances, skips);
        lemma_run_valid(side, fewer);
        assert forall|i: int| 0 <= i < prior.len() implies (#[trigger] prior[i] matches Answer::Entered(
            d,
            c,
        ) ==> c == Chance::Negligible) by {
            assert(prior.len() <= record.len());
            assert(record[i] == prior[i]);
        }
        lemma_negligible_classes_join_none::<N>(side, chances, fewer);
        if !before.done() {
            lemma_step_enters(before, skips.last() as nat);
            let chance = chances[class_index(before)];
            let heard = Answer::Entered(class_distance::<N>(before), chance);
            assert(record[prior.len() as int] == heard);
            assert(record[prior.len() as int] is Entered);
            assert(chance == Chance::Negligible);
        }
    }
}

} // verus!
