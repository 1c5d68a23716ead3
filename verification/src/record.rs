//! What a sweep asks of its sampler.
//!
//! A sweep enters every offset class once, in row-major order, with the
//! distance of the class, and is told the chance of that class. It then takes
//! the steps of the class: a certain chance gives the skip zero, a negligible
//! one the largest skip, and an open one takes one draw per step. The answers
//! that this leaves on the sampler's record are a function of the lattice,
//! the metric, the chances and the skips; [`asked`] is that function.

use crate::lattice::{periodic, side_fits};
use crate::norms::{Distance, LInf, Norm, NormType, L1, L2};
use crate::percolation::{Answer, Chance};
use crate::sweep::{lemma_run_valid, lemma_step_valid, run, SweepState};
use vstd::prelude::*;

verus! {

/// The number of offset classes of a lattice: every offset but `(0, 0)`.
pub open spec fn classes(side: nat) -> nat {
    if side == 0 {
        0
    } else {
        (side * side - 1) as nat
    }
}

/// The place of the class that `state` stands in, among the classes in
/// row-major order; the end of the sweep stands behind the last class.
pub open spec fn class_index(state: SweepState) -> int {
    if state.side == 0 {
        0
    } else {
        state.dx * state.side + state.dy - 1
    }
}

/// The number of classes that have been entered when the sweep stands in
/// `state`: those before the current class, and the current one once its
/// first step is taken.
pub open spec fn entered(state: SweepState) -> int {
    if state.site > 0 {
        class_index(state) + 1
    } else {
        class_index(state)
    }
}

/// The distance of the class that `state` stands in, under the metric `N`:
/// the distance of its two periodic offsets.
pub open spec fn class_distance<N: NormType>(state: SweepState) -> Distance {
    N::distance(
        periodic(state.dx, state.side) as usize,
        periodic(state.dy, state.side) as usize,
    )
}

/// Whether `skip` is a skip that the chance `chance` allows: zero where the
/// bond is certain, the largest skip where it is negligible, any skip where
/// it is open.
pub open spec fn fits(chance: Chance, skip: usize) -> bool {
    &&& chance == Chance::Certain ==> skip == 0
    &&& chance == Chance::Negligible ==> skip == usize::MAX
}

/// Whether every skip of the sweep fits the chance of the class in which it
/// is taken, where `chances` holds the chance of each class in row-major
/// order.
pub open spec fn obeyed(side: nat, chances: Seq<Chance>, skips: Seq<usize>) -> bool
    decreases skips.len(),
{
    if skips.len() == 0 {
        true
    } else {
        let before = run(side, skips.drop_last());
        &&& obeyed(side, chances, skips.drop_last())
        &&& before.done() || fits(chances[class_index(before)], skips.last())
    }
}

/// The answers that the sweep on `skips` asks of its sampler, in order: for
/// each class `Entered` with the distance of the class and its chance, at
/// the first step of the class, and then one `Drew` for every step of a
/// class whose chance is open.
pub open spec fn asked<N: NormType>(side: nat, chances: Seq<Chance>, skips: Seq<usize>) -> Seq<
    Answer,
>
    decreases skips.len(),
{
    if skips.len() == 0 {
        Seq::empty()
    } else {
        let before = run(side, skips.drop_last());
        let prior = asked::<N>(side, chances, skips.drop_last());
        if before.done() {
            prior
        } else {
            let chance = chances[class_index(before)];
            let told = if before.site == 0 {
                prior.push(Answer::Entered(class_distance::<N>(before), chance))
            } else {
                prior
            };
            if chance == Chance::Open {
                told.push(Answer::Drew(skips.last()))
            } else {
                told
            }
        }
    }
}

/// [`asked`] under the metric that `norm` names.
pub open spec fn asked_under(norm: Norm, side: nat, chances: Seq<Chance>, skips: Seq<usize>) -> Seq<
    Answer,
> {
    match norm {
        Norm::L1 => asked::<L1>(side, chances, skips),
        Norm::L2 => asked::<L2>(side, chances, skips),
        Norm::LInf => asked::<LInf>(side, chances, skips),
    }
}

/// The sweep on `skips` has run to its end, `chances` holds one chance for
/// each class, every skip fits the chance of its class, and the sweep has
/// added to the record `before` exactly what it asked, leaving `after`.
pub open spec fn conversed<N: NormType>(
    side: nat,
    chances: Seq<Chance>,
    skips: Seq<usize>,
    before: Seq<Answer>,
    after: Seq<Answer>,
) -> bool {
    &&& run(side, skips).done()
    &&& chances.len() == classes(side)
    &&& obeyed(side, chances, skips)
    &&& after == before + asked::<N>(side, chances, skips)
}

/// [`conversed`] under the metric that `norm` names.
pub open spec fn conversed_under(
    norm: Norm,
    side: nat,
    chances: Seq<Chance>,
    skips: Seq<usize>,
    before: Seq<Answer>,
    after: Seq<Answer>,
) -> bool {
    &&& run(side, skips).done()
    &&& chances.len() == classes(side)
    &&& obeyed(side, chances, skips)
    &&& after == before + asked_under(norm, side, chances, skips)
}

/// The classes of a sweep in progress are counted from zero, and the end of
/// the sweep stands behind the last of them.
pub proof fn lemma_class_index(state: SweepState)
    requires
        state.valid(),
        state.side >= 1,
    ensures
        0 <= class_index(state) <= classes(state.side),
        state.done() <==> class_index(state) == classes(state.side),
{
    let s = state.side as int;
    let x = state.dx as int;
    assert(s * s >= 1) by (nonlinear_arith)
        requires
            s >= 1,
    ;
    if state.done() {
        assert(x * s == s * s) by (nonlinear_arith)
            requires
                x == s,
        ;
    } else {
        assert(x * s + s <= s * s) by (nonlinear_arith)
            requires
                0 <= x < s,
        ;
        assert(x * s >= 0 && (x >= 1 ==> x * s >= s)) by (nonlinear_arith)
            requires
                0 <= x,
                0 <= s,
        ;
    }
}

/// A step enters the class in which it is taken, and no other.
pub proof fn lemma_step_enters(state: SweepState, skip: nat)
    requires
        state.valid(),
        !state.done(),
    ensures
        entered(state.step(skip)) == class_index(state) + 1,
        entered(state) <= class_index(state) + 1,
        0 <= class_index(state) < classes(state.side),
{
    lemma_class_index(state);
    lemma_step_valid(state, skip);
    let s = state.side as int;
    let x = state.dx as int;
    assert((x + 1) * s == x * s + s) by (nonlinear_arith);
}

/// What a sweep asks, and whether it obeys, rests on the chances of the
/// classes that it has entered alone.
pub proof fn lemma_frame<N: NormType>(
    side: nat,
    first: Seq<Chance>,
    second: Seq<Chance>,
    skips: Seq<usize>,
)
    requires
        side_fits(side),
        forall|i: int| 0 <= i < entered(run(side, skips)) ==> first[i] == second[i],
    ensures
        obeyed(side, first, skips) == obeyed(side, second, skips),
        asked::<N>(side, first, skips) == asked::<N>(side, second, skips),
    decreases skips.len(),
{
    if skips.len() > 0 {
        let before = run(side, skips.drop_last());
        lemma_run_valid(side, skips.drop_last());
        if before.done() {
            lemma_frame::<N>(side, first, second, skips.drop_last());
        } else {
            lemma_step_enters(before, skips.last() as nat);
            lemma_frame::<N>(side, first, second, skips.drop_last());
        }
    }
}

/// Every skip of a sweep that obeys fits the chance of the class in which it
/// is taken.
pub proof fn lemma_obeyed_at(side: nat, chances: Seq<Chance>, skips: Seq<usize>, k: int)
    requires
        obeyed(side, chances, skips),
        0 <= k < skips.len(),
        !run(side, skips.take(k)).done(),
    ensures
        fits(chances[class_index(run(side, skips.take(k)))], skips[k]),
    decreases skips.len(),
{
    if k == skips.len() - 1 {
        assert(skips.take(k) =~= skips.drop_last());
    } else {
        assert(skips.drop_last().take(k) =~= skips.take(k));
        lemma_obeyed_at(side, chances, skips.drop_last(), k);
    }
}

/// The distance, under the metric `N`, of the class that stands at place
/// `class` in row-major order.
pub open spec fn distance_of_class<N: NormType>(side: nat, class: int) -> Distance {
    N::distance(
        periodic(((class + 1) / side as int) as nat, side) as usize,
        periodic(((class + 1) % side as int) as nat, side) as usize,
    )
}

/// Whether the record `answers` shows that the sampler was told the distance
/// `distance` and answered with the chance `chance`.
pub open spec fn told(answers: Seq<Answer>, distance: Distance, chance: Chance) -> bool {
    answers.contains(Answer::Entered(distance, chance))
}

/// An answer on a record stays on it when another answer is added.
proof fn lemma_push_keeps(answers: Seq<Answer>, added: Answer, kept: Answer)
    requires
        answers.contains(kept),
    ensures
        answers.push(added).contains(kept),
{
    let i = choose|i: int| 0 <= i < answers.len() && answers[i] == kept;
    assert(answers.push(added)[i] == kept);
}

/// The answer that is added to a record is on it.
proof fn lemma_push_holds(answers: Seq<Answer>, added: Answer)
    ensures
        answers.push(added).contains(added),
{
    assert(answers.push(added)[answers.len() as int] == added);
}

/// The class in which a sweep stands is the one at the place of its index.
pub proof fn lemma_distance_of_class<N: NormType>(state: SweepState)
    requires
        state.valid(),
        !state.done(),
    ensures
        class_distance::<N>(state) == distance_of_class::<N>(state.side, class_index(state)),
{
    let s = state.side as int;
    vstd::arithmetic::div_mod::lemma_fundamental_div_mod_converse(
        class_index(state) + 1,
        s,
        state.dx as int,
        state.dy as int,
    );
}

/// For every class that a sweep has entered, its record shows that the
/// sampler was told the distance of the class and answered with the chance
/// that `chances` holds for it.
pub proof fn lemma_asked_tells<N: NormType>(
    side: nat,
    chances: Seq<Chance>,
    skips: Seq<usize>,
    class: int,
)
    requires
        side_fits(side),
        0 <= class < entered(run(side, skips)),
    ensures
        told(
            asked::<N>(side, chances, skips),
            distance_of_class::<N>(side, class),
            chances[class],
        ),
    decreases skips.len(),
{
    lemma_run_valid(side, skips);
    if skips.len() == 0 {
        let first = run(side, skips);
        if side >= 1 {
            assert(first.dx * first.side + first.dy == 1) by (nonlinear_arith)
                requires
                    first.side == side,
                    side >= 2 ==> first.dx == 0 && first.dy == 1,
                    side == 1 ==> first.dx == 1 && first.dy == 0,
                    side >= 1,
            ;
        }
    } else {
        let before = run(side, skips.drop_last());
        let prior = asked::<N>(side, chances, skips.drop_last());
        lemma_run_valid(side, skips.drop_last());
        if before.done() {
            lemma_asked_tells::<N>(side, chances, skips.drop_last(), class);
        } else {
            lemma_step_enters(before, skips.last() as nat);
            let chance = chances[class_index(before)];
            let wanted = Answer::Entered(distance_of_class::<N>(side, class), chances[class]);
            let heard = Answer::Entered(class_distance::<N>(before), chance);
            let drawn = Answer::Drew(skips.last());
            let after_entering = if before.site == 0 {
                prior.push(heard)
            } else {
                prior
            };
            if class < entered(before) {
                lemma_asked_tells::<N>(side, chances, skips.drop_last(), class);
                if before.site == 0 {
                    lemma_push_keeps(prior, heard, wanted);
                }
            } else {
                lemma_distance_of_class::<N>(before);
                lemma_push_holds(prior, heard);
            }
            assert(after_entering.contains(wanted));
            if chance == Chance::Open {
                lemma_push_keeps(after_entering, drawn, wanted);
            }
        }
    }
}

/// The skips that stand behind a record, on a lattice of `sites` sites: a
/// class that was entered with a certain bond takes the skip zero once for
/// each site, one with a negligible bond takes the largest skip once, and
/// one with an open chance takes the skips that were drawn.
pub open spec fn skips_of(sites: nat, answers: Seq<Answer>) -> Seq<usize>
    decreases answers.len(),
{
    if answers.len() == 0 {
        Seq::empty()
    } else {
        let prior = skips_of(sites, answers.drop_last());
        match answers.last() {
            Answer::Entered(_, Chance::Certain) => prior + Seq::new(sites, |i: int| 0usize),
            Answer::Entered(_, Chance::Negligible) => prior.push(usize::MAX),
            Answer::Entered(_, Chance::Open) => prior,
            Answer::Drew(skip) => prior.push(skip),
        }
    }
}

/// The chances that a record shows, in the order in which the classes were
/// entered.
pub open spec fn chances_of(answers: Seq<Answer>) -> Seq<Chance>
    decreases answers.len(),
{
    if answers.len() == 0 {
        Seq::empty()
    } else {
        let prior = chances_of(answers.drop_last());
        match answers.last() {
            Answer::Entered(_, chance) => prior.push(chance),
            Answer::Drew(_) => prior,
        }
    }
}

/// The answers that were added to the record `before` to give `after`.
pub open spec fn given_since(before: Seq<Answer>, after: Seq<Answer>) -> Seq<Answer> {
    after.subrange(before.len() as int, after.len() as int)
}

/// What one more answer adds to the skips and to the chances of a record.
pub proof fn lemma_one_more(sites: nat, answers: Seq<Answer>, added: Answer)
    ensures
        skips_of(sites, answers.push(added)) == match added {
            Answer::Entered(_, Chance::Certain) => skips_of(sites, answers) + Seq::new(
                sites,
                |i: int| 0usize,
            ),
            Answer::Entered(_, Chance::Negligible) => skips_of(sites, answers).push(usize::MAX),
            Answer::Entered(_, Chance::Open) => skips_of(sites, answers),
            Answer::Drew(skip) => skips_of(sites, answers).push(skip),
        },
        chances_of(answers.push(added)) == match added {
            Answer::Entered(_, chance) => chances_of(answers).push(chance),
            Answer::Drew(_) => chances_of(answers),
        },
{
    assert(answers.push(added).drop_last() =~= answers);
}

} // verus!
