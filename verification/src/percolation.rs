//! One realization of long-range percolation.
//!
//! The probability with which two sites are bonded falls with their distance,
//! and the skips of the sweep are drawn at random from that probability. Both
//! are real-valued and come from outside, through a [`SkipSampler`]. Every
//! answer of the sampler is put on record, and the realization is stated
//! over that record: it is the sweep on the chances and the skips that the
//! sampler gave, asked for in the order of the classes.

use crate::clusters::{as_nats, ClusterTracker};
use crate::lattice::side_fits;
use crate::norms::{Distance, LInf, Norm, NormType, L1, L2};
use crate::boundaries::{
    answered_always, drew_nothing, lemma_certain_neighbours_join_all,
    lemma_negligible_classes_join_none, nearest_certain,
};
use crate::partition::{
    all_joined, lemma_all_joined, lemma_singletons, singletons, sizes, total,
};
use crate::record::{
    asked, chances_of, class_distance, class_index, conversed, conversed_under, entered,
    given_since, lemma_class_index, lemma_frame, lemma_one_more, lemma_step_enters, obeyed,
    skips_of,
};
use crate::sweep::{lemma_run_push, lemma_run_valid, lemma_step_valid, run, Sweep};
use vstd::prelude::*;

verus! {

/// Where the bond probability of an offset class lies.
#[derive(Debug, Clone, Copy, PartialEq, Eq, Structural)]
pub enum Chance {
    /// The probability is at least one: every site is bonded.
    Certain,
    /// The probability is too small to tell from zero: no site is bonded.
    Negligible,
    /// The probability lies in between: the skips are drawn at random.
    Open,
}

/// One answer of a sampler.
pub enum Answer {
    /// The sampler was told the distance of a class and said where the bond
    /// probability of that class lies.
    Entered(Distance, Chance),
    /// The sampler drew a skip.
    Drew(usize),
}

/// The source of the bond probabilities and of the random skips of a sweep.
///
/// A sampler is told the distance of each offset class before the class is
/// walked, and says where the bond probability of that class lies. Where it
/// is open, the sampler is asked for one draw per step.
pub trait SkipSampler {
    /// Fixes the bond probability for the steps that follow, from the
    /// distance of the class that is about to be walked, and tells where
    /// that probability lies.
    fn enter(&mut self, distance: Distance) -> Chance;

    /// Draws, from the random stream, the number of sites that are not
    /// bonded before the next one that is.
    fn draw(&mut self) -> usize;
}

/// A sampler together with the record of its answers.
///
/// The sampler can only be asked through the recording, so that the record
/// holds every answer it gave since the recording was made, in order.
pub struct Recording<S> {
    sampler: S,
    record: Ghost<Seq<Answer>>,
}

impl<S: SkipSampler> Recording<S> {
    /// Every answer that the sampler has given, in order.
    pub closed spec fn answers(&self) -> Seq<Answer> {
        self.record@
    }

    /// The sampler that is being recorded.
    pub closed spec fn held(&self) -> S {
        self.sampler
    }

    /// Begins the record of `sampler`.
    pub fn new(sampler: S) -> (recording: Self)
        ensures
            recording.answers() == Seq::<Answer>::empty(),
            recording.held() == sampler,
    {
        Recording { sampler, record: Ghost(Seq::empty()) }
    }

    /// Tells the sampler the distance of the class that is about to be
    /// walked, and records where it says the bond probability lies.
    pub fn enter(&mut self, distance: Distance) -> (chance: Chance)
        ensures
            final(self).answers() == old(self).answers().push(Answer::Entered(distance, chance)),
    {
        let chance = self.sampler.enter(distance);
        self.record = Ghost(self.record@.push(Answer::Entered(distance, chance)));
        chance
    }

    /// Takes one draw from the sampler and records it.
    pub fn draw(&mut self) -> (skip: usize)
        ensures
            final(self).answers() == old(self).answers().push(Answer::Drew(skip)),
    {
        let skip = self.sampler.draw();
        self.record = Ghost(self.record@.push(Answer::Drew(skip)));
        skip
    }

    /// The sampler, to look at.
    pub fn sampler(&self) -> (sampler: &S)
        ensures
            *sampler == self.held(),
    {
        &self.sampler
    }

    /// Ends the record and hands the sampler back.
    pub fn into_sampler(self) -> (sampler: S)
        ensures
            sampler == self.held(),
    {
        self.sampler
    }
}

/// Returns the number of sites to pass over before the next bonded site.
///
/// A certain bond gives the skip zero and a negligible one the skip
/// `usize::MAX`; neither takes a draw, so that the sampler and its random
/// stream are left as they were. An open probability takes exactly one draw
/// and returns it.
pub fn geometric_skip<S: SkipSampler>(chance: Chance, sampler: &mut Recording<S>) -> (skip: usize)
    ensures
        chance == Chance::Certain ==> skip == 0,
        chance == Chance::Negligible ==> skip == usize::MAX,
        chance != Chance::Open ==> *final(sampler) == *old(sampler),
        chance == Chance::Open ==> final(sampler).answers() == old(sampler).answers().push(
            Answer::Drew(skip),
        ),
{
    match chance {
        Chance::Certain => 0,
        Chance::Negligible => usize::MAX,
        Chance::Open => sampler.draw(),
    }
}

/// The labelling `labels` is what a sweep of the lattice of side `side`
/// leaves when it is run to its end on the skips `skips`.
pub open spec fn swept(side: nat, skips: Seq<usize>, labels: Seq<int>) -> bool {
    run(side, skips).done() && run(side, skips).labels == labels
}

/// The sizes `listed` are the cluster sizes that a sweep of the lattice of
/// side `side` leaves when it is run to its end on the skips `skips`.
pub open spec fn realized(side: nat, skips: Seq<usize>, listed: Seq<nat>) -> bool {
    run(side, skips).done() && sizes(run(side, skips).labels) == listed
}

/// The labelling `labels` and the record `after` are what a sweep of the
/// lattice of side `side` under the metric `N` makes of a sampler whose
/// record was `before`: the record has grown by what the sweep asked, on the
/// chances and the skips that the new answers hold, every skip fits the
/// chance of its class, and `labels` is what the sweep on those skips leaves.
pub open spec fn percolated<N: NormType>(
    side: nat,
    labels: Seq<int>,
    before: Seq<Answer>,
    after: Seq<Answer>,
) -> bool {
    let since = given_since(before, after);
    let skips = skips_of(side * side, since);
    &&& swept(side, skips, labels)
    &&& conversed::<N>(side, chances_of(since), skips, before, after)
}

/// Two sweeps of one lattice under one metric whose samplers gave the same
/// answers leave the same clusters.
pub proof fn lemma_answers_decide<N: NormType>(
    side: nat,
    first: Seq<int>,
    second: Seq<int>,
    before_first: Seq<Answer>,
    after_first: Seq<Answer>,
    before_second: Seq<Answer>,
    after_second: Seq<Answer>,
)
    requires
        percolated::<N>(side, first, before_first, after_first),
        percolated::<N>(side, second, before_second, after_second),
        given_since(before_first, after_first) == given_since(before_second, after_second),
    ensures
        first == second,
{
}

/// Sweeps the lattice of side `side` under the metric `N`, with the chances
/// and the skips that `sampler` gives, and returns the clusters that result.
///
/// The sampler is entered once for each class, in row-major order, with the
/// distance of the class under `N`. The steps of a class take the skip that
/// its chance allows, with one draw per step where it is open and none
/// otherwise. The result is the sweep on those skips, so that it is a
/// function of the side and of the answers of the sampler. Where the sampler
/// says that nearest neighbours bond for certain, all sites end in one
/// cluster; where it says of every class that the bond is negligible, every
/// site stays alone and no draw is taken. A lattice of at most one site has
/// no class, and leaves the sampler as it was.
pub fn lr_percolation_2d<N: NormType, S: SkipSampler>(
    side: usize,
    sampler: &mut Recording<S>,
) -> (clusters: ClusterTracker)
    requires
        side_fits(side as nat),
    ensures
        clusters.wf(),
        clusters@.len() == side * side,
        percolated::<N>(side as nat, clusters@, old(sampler).answers(), final(sampler).answers()),
        side <= 1 ==> *final(sampler) == *old(sampler),
        nearest_certain::<N>(given_since(old(sampler).answers(), final(sampler).answers()))
            ==> all_joined(clusters@),
        answered_always(
            given_since(old(sampler).answers(), final(sampler).answers()),
            Chance::Negligible,
        ) ==> clusters@ == singletons((side * side) as nat) && drew_nothing(
            given_since(old(sampler).answers(), final(sampler).answers()),
        ),
{
    let mut sweep = Sweep::new(side);
    let ghost sites = (side * side) as nat;
    let ghost mut skips: Seq<usize> = Seq::empty();
    let ghost mut chances: Seq<Chance> = Seq::empty();
    proof {
        lemma_run_valid(side as nat, skips);
        let first = sweep@;
        assert(first.dx * first.side + first.dy == 1 || side == 0) by (nonlinear_arith)
            requires
                first.side == side,
                side >= 2 ==> first.dx == 0 && first.dy == 1,
                side == 1 ==> first.dx == 1 && first.dy == 0,
        ;
        assert(sampler.answers() =~= old(sampler).answers() + asked::<N>(
            side as nat,
            chances,
            skips,
        ));
    }
    while !sweep.is_done()
        invariant
            side_fits(side as nat),
            sites == side * side,
            sweep.wf(),
            sweep@ == run(side as nat, skips),
            sweep@.side == side,
            sweep@.site == 0,
            chances.len() == entered(sweep@),
            obeyed(side as nat, chances, skips),
            sampler.answers() == old(sampler).answers() + asked::<N>(side as nat, chances, skips),
            skips_of(sites, asked::<N>(side as nat, chances, skips)) == skips,
            chances_of(asked::<N>(side as nat, chances, skips)) == chances,
            side <= 1 ==> sweep@.done() && *sampler == *old(sampler),
        decreases side - sweep@.dx, side - sweep@.dy,
    {
        let ghost class = sweep@;
        let (x, y) = sweep.periodic_offset();
        proof {
            N::lemma_norm(x, y);
            lemma_class_index(class);
        }
        let distance = N::compute_distance(x, y);
        if distance.is_zero() {
            // No class but (0, 0) lies at distance zero; a class that did
            // would be left out as a whole.
            sweep.pass_class();
        } else {
            let chance = sampler.enter(distance);
            let ghost base_skips = skips;
            proof {
                lemma_frame::<N>(side as nat, chances, chances.push(chance), skips);
                chances = chances.push(chance);
            }
            let ghost base = asked::<N>(side as nat, chances, skips);
            let ghost none = Seq::new(sites, |i: int| 0usize);
            proof {
                assert(chances.drop_last() =~= chances_of(base));
                assert(side >= 2);
                assert(sites >= 4) by (nonlinear_arith)
                    requires
                        sites == side * side,
                        side >= 2,
                ;
            }
            let mut more = true;
            while more
                invariant
                    side_fits(side as nat),
                    side >= 2,
                    sites == side * side,
                    sites >= 4,
                    sweep.wf(),
                    sweep@ == run(side as nat, skips),
                    sweep@.side == side,
                    class.valid(),
                    !class.done(),
                    class.side == side,
                    distance == class_distance::<N>(class),
                    chances.len() == class_index(class) + 1,
                    chances[class_index(class)] == chance,
                    obeyed(side as nat, chances, skips),
                    more ==> !sweep@.done() && sweep@.dx == class.dx && sweep@.dy == class.dy,
                    !more ==> sweep@.site == 0 && entered(sweep@) == chances.len() && (sweep@.dx
                        > class.dx || (sweep@.dx == class.dx && sweep@.dy > class.dy)),
                    sampler.answers() == old(sampler).answers() + asked::<N>(
                        side as nat,
                        chances,
                        skips,
                    ) + if more && sweep@.site == 0 {
                        seq![Answer::Entered(distance, chance)]
                    } else {
                        Seq::<Answer>::empty()
                    },
                    none == Seq::new(sites, |i: int| 0usize),
                    skips_of(sites, base) == base_skips,
                    chances_of(base).push(chance) == chances,
                    chance == Chance::Negligible && more ==> sweep@.site == 0,
                    more && sweep@.site == 0 ==> skips == base_skips && asked::<N>(
                        side as nat,
                        chances,
                        skips,
                    ) == base,
                    !(more && sweep@.site == 0) ==> chances_of(
                        asked::<N>(side as nat, chances, skips),
                    ) == chances,
                    !(more && sweep@.site == 0) && chance != Chance::Certain ==> skips_of(
                        sites,
                        asked::<N>(side as nat, chances, skips),
                    ) == skips,
                    !(more && sweep@.site == 0) && chance == Chance::Certain ==> skips_of(
                        sites,
                        asked::<N>(side as nat, chances, skips),
                    ) == base_skips + none,
                    !(more && sweep@.site == 0) && chance == Chance::Certain ==> skips
                        == base_skips + none.take(
                        if more {
                            sweep@.site as int
                        } else {
                            sites as int
                        },
                    ),
                decreases
                        if more {
                            1nat
                        } else {
                            0nat
                        },
                        sweep@.sites() - sweep@.site,
            {
                let ghost before = sweep@;
                let ghost prior = asked::<N>(side as nat, chances, skips);
                let skip = geometric_skip(chance, sampler);
                proof {
                    lemma_step_valid(before, skip as nat);
                    lemma_step_enters(before, skip as nat);
                    lemma_run_push(side as nat, skips, skip);
                    let longer = skips.push(skip);
                    assert(longer.drop_last() =~= skips);
                    assert(longer.last() == skip);
                    assert(class_index(before) == class_index(class));
                    assert(class_distance::<N>(before) == class_distance::<N>(class));
                    assert(obeyed(side as nat, chances, longer));
                    let next = asked::<N>(side as nat, chances, longer);
                    let heard = Answer::Entered(distance, chance);
                    let told = if before.site == 0 {
                        prior.push(heard)
                    } else {
                        prior
                    };
                    assert(next == if chance == Chance::Open {
                        told.push(Answer::Drew(skip))
                    } else {
                        told
                    });
                    assert(sampler.answers() =~= old(sampler).answers() + next);
                    if before.site == 0 {
                        lemma_one_more(sites, prior, heard);
                    }
                    if chance == Chance::Open {
                        lemma_one_more(sites, told, Answer::Drew(skip));
                    }
                    if chance == Chance::Certain {
                        let after = before.step(skip as nat);
                        let walked = if after.dx == class.dx && after.dy == class.dy {
                            after.site as int
                        } else {
                            sites as int
                        };
                        assert(walked == before.site + 1);
                        assert(longer =~= base_skips + none.take(walked));
                        assert(none.take(sites as int) =~= none);
                    }
                    skips = longer;
                }
                more = sweep.advance(skip);
                proof {
                    assert(sampler.answers() =~= old(sampler).answers() + asked::<N>(
                        side as nat,
                        chances,
                        skips,
                    ) + Seq::<Answer>::empty());
                }
            }
            proof {
                assert(none.take(sites as int) =~= none);
            }
        }
    }
    proof {
        if side >= 1 {
            lemma_class_index(sweep@);
        }
        let since = given_since(old(sampler).answers(), sampler.answers());
        assert(since =~= asked::<N>(side as nat, chances, skips));
        assert(swept(side as nat, skips, sweep@.labels));
        assert(conversed::<N>(
            side as nat,
            chances,
            skips,
            old(sampler).answers(),
            sampler.answers(),
        ));
        if nearest_certain::<N>(since) {
            lemma_certain_neighbours_join_all::<N>(side as nat, chances, skips);
        }
        if answered_always(since, Chance::Negligible) {
            lemma_negligible_classes_join_none::<N>(side as nat, chances, skips);
        }
    }
    sweep.into_clusters()
}

/// The sizes `listed` and the record `after` are what a realization on the
/// lattice of side `side`, under the metric that `norm` names, makes of a
/// sampler whose record was `before`: as [`percolated`], with the sizes of
/// the clusters that the sweep leaves.
pub open spec fn realized_under(
    norm: Norm,
    side: nat,
    listed: Seq<nat>,
    before: Seq<Answer>,
    after: Seq<Answer>,
) -> bool {
    let since = given_since(before, after);
    let skips = skips_of(side * side, since);
    &&& realized(side, skips, listed)
    &&& conversed_under(norm, side, chances_of(since), skips, before, after)
}

/// Two realizations on one lattice under one metric whose samplers gave the
/// same answers list the same sizes.
pub proof fn lemma_answers_decide_sizes(
    norm: Norm,
    side: nat,
    first: Seq<nat>,
    second: Seq<nat>,
    before_first: Seq<Answer>,
    after_first: Seq<Answer>,
    before_second: Seq<Answer>,
    after_second: Seq<Answer>,
)
    requires
        realized_under(norm, side, first, before_first, after_first),
        realized_under(norm, side, second, before_second, after_second),
        given_since(before_first, after_first) == given_since(before_second, after_second),
    ensures
        first == second,
{
}

/// [`nearest_certain`] under the metric that `norm` names.
pub open spec fn nearest_certain_under(norm: Norm, answers: Seq<Answer>) -> bool {
    match norm {
        Norm::L1 => nearest_certain::<L1>(answers),
        Norm::L2 => nearest_certain::<L2>(answers),
        Norm::LInf => nearest_certain::<LInf>(answers),
    }
}

/// Runs one realization on the lattice of side `side` under the metric that
/// `norm` names, with the chances and the skips that `sampler` gives, and
/// lists the sizes of the clusters that result.
///
/// The sampler is asked as [`lr_percolation_2d`] asks it under that metric.
/// The sizes are those that the sweep leaves on the skips that were given,
/// and they add up to the number of sites. Where the sampler says that
/// nearest neighbours bond for certain, the one size is the number of sites;
/// where it says of every class that the bond is negligible, every size is
/// one and no draw is taken.
pub fn realize<S: SkipSampler>(norm: Norm, side: usize, sampler: &mut Recording<S>) -> (listed:
    Vec<usize>)
    requires
        side_fits(side as nat),
    ensures
        realized_under(
            norm,
            side as nat,
            as_nats(listed@),
            old(sampler).answers(),
            final(sampler).answers(),
        ),
        total(as_nats(listed@)) == side * side,
        side <= 1 ==> *final(sampler) == *old(sampler),
        side >= 1 && nearest_certain_under(
            norm,
            given_since(old(sampler).answers(), final(sampler).answers()),
        ) ==> as_nats(listed@) == seq![(side * side) as nat],
        answered_always(
            given_since(old(sampler).answers(), final(sampler).answers()),
            Chance::Negligible,
        ) ==> as_nats(listed@) == Seq::new((side * side) as nat, |i: int| 1nat) && drew_nothing(
            given_since(old(sampler).answers(), final(sampler).answers()),
        ),
{
    let clusters = match norm {
        Norm::L1 => lr_percolation_2d::<L1, S>(side, sampler),
        Norm::L2 => lr_percolation_2d::<L2, S>(side, sampler),
        Norm::LInf => lr_percolation_2d::<LInf, S>(side, sampler),
    };
    let listed = clusters.cluster_sizes();
    proof {
        lemma_singletons((side * side) as nat);
        if side >= 1 && all_joined(clusters@) {
            assert(side * side >= 1) by (nonlinear_arith)
                requires
                    side >= 1,
            ;
            lemma_all_joined(clusters@);
        }
    }
    listed
}

} // verus!
