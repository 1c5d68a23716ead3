use lr_percolation::norms::{Distance, LInf, Norm, L1, L2};
use lr_percolation::percolation::{
    geometric_skip, lr_percolation_2d, realize, Chance, Recording, SkipSampler,
};
use lr_percolation::streams::derive_stream;
use rand::distr::StandardUniform;
use rand::{Rng, SeedableRng};
use rand_chacha::ChaCha8Rng;

/// Bond probabilities `beta / distance^(2 + alpha)` and geometric draws from a
/// random stream.
struct Sampler {
    alpha: f64,
    beta: f64,
    p: f64,
    rng: ChaCha8Rng,
    draws: usize,
}

impl Sampler {
    fn new(alpha: f64, beta: f64, rng: ChaCha8Rng) -> Recording<Sampler> {
        Recording::new(Sampler { alpha, beta, p: 0.0, rng, draws: 0 })
    }

    fn with_probability(p: f64, rng: ChaCha8Rng) -> Recording<Sampler> {
        Recording::new(Sampler { alpha: 0.0, beta: 0.0, p, rng, draws: 0 })
    }

    fn chance(&self) -> Chance {
        if self.p >= 1.0 {
            Chance::Certain
        } else if self.p <= 1e-16 {
            Chance::Negligible
        } else {
            Chance::Open
        }
    }
}

impl SkipSampler for Sampler {
    fn enter(&mut self, distance: Distance) -> Chance {
        let d = match distance {
            Distance::Whole(n) => n as f64,
            Distance::Root(n) => f64::sqrt(n as f64),
        };
        self.p = self.beta / d.powf(2.0 + self.alpha);
        self.chance()
    }

    fn draw(&mut self) -> usize {
        self.draws += 1;
        let u: f64 = self.rng.sample(StandardUniform);
        (u.log2() / (1.0 - self.p).log2()) as usize
    }
}

fn scripted(chance: Chance, skips: Vec<usize>) -> Recording<Scripted> {
    Recording::new(Scripted { chance, skips, next: 0, entered: Vec::new() })
}

/// A sampler that hands out the answers it was made with.
struct Scripted {
    chance: Chance,
    skips: Vec<usize>,
    next: usize,
    entered: Vec<Distance>,
}

impl SkipSampler for Scripted {
    fn enter(&mut self, distance: Distance) -> Chance {
        self.entered.push(distance);
        self.chance
    }

    fn draw(&mut self) -> usize {
        let skip = self.skips[self.next % self.skips.len()];
        self.next += 1;
        skip
    }
}

#[test]
fn percolation_test_geometric_skip_edge_cases() {
    let rng = ChaCha8Rng::seed_from_u64(42);

    // When p >= 1.0, should always return 0 (immediate success)
    let mut sampler = Sampler::with_probability(1.0, rng);
    assert_eq!(geometric_skip(sampler.sampler().chance(), &mut sampler), 0);
    let mut inner = sampler.into_sampler();
    inner.p = 1.5;
    let mut sampler = Recording::new(inner);
    assert_eq!(geometric_skip(sampler.sampler().chance(), &mut sampler), 0);

    // When p is very small, should return usize::MAX
    let mut inner = sampler.into_sampler();
    inner.p = 1e-17;
    let mut sampler = Recording::new(inner);
    assert_eq!(geometric_skip(sampler.sampler().chance(), &mut sampler), usize::MAX);
    assert_eq!(sampler.sampler().draws, 0);

    // For p=0.5, the distribution is well-defined
    let fixed_rng = ChaCha8Rng::seed_from_u64(123);
    let mut fixed = Sampler::with_probability(0.5, fixed_rng);
    let skip = geometric_skip(fixed.sampler().chance(), &mut fixed);
    assert!(skip < 100);
    assert_eq!(fixed.sampler().draws, 1);
}

#[test]
fn percolation_test_simple_percolation() {
    let l = 10;
    let alpha = 0.0;
    let beta = 1.0; // connect everything

    let rng = ChaCha8Rng::seed_from_u64(42);
    let mut sampler = Sampler::new(alpha, beta, rng);

    let clusters = lr_percolation_2d::<L1, _>(l, &mut sampler);

    assert_eq!(clusters.cluster_sizes().len(), 1);
}

#[test]
fn percolation_test_no_percolation() {
    let l = 10;
    let alpha = 1.0;
    let beta = 0.0; // connect nothing

    let rng = ChaCha8Rng::seed_from_u64(42);
    let mut sampler = Sampler::new(alpha, beta, rng);

    let clusters = lr_percolation_2d::<L1, _>(l, &mut sampler);

    let sizes = clusters.cluster_sizes();
    assert_eq!(sizes.len(), 100);
    for size in sizes {
        assert_eq!(size, 1);
    }
}

#[test]
fn percolation_test_cluster_property_invariant() {
    // Test that total sum of clusters equals grid size
    let l = 4; // 4x4 grid
    let alpha = 1.5;
    let beta = 0.5;
    let rng = ChaCha8Rng::seed_from_u64(123);
    let mut sampler = Sampler::new(alpha, beta, rng);

    let clusters = lr_percolation_2d::<L1, _>(l, &mut sampler);

    // Sum of all cluster sizes should equal total grid size
    let sum_sizes: usize = clusters.cluster_sizes().iter().sum();
    assert_eq!(sum_sizes, l * l);
}

#[test]
fn full_connection_leaves_one_cluster_of_all_sites() {
    for l in 2..12usize {
        let mut sampler = Sampler::new(0.0, 1.0, derive_stream(42, 0));
        assert_eq!(realize(Norm::L1, l, &mut sampler), vec![l * l]);
    }
    let mut sampler = Sampler::new(0.0, 1.0, derive_stream(42, 0));
    assert_eq!(realize(Norm::L1, 1, &mut sampler), vec![1]);
}

#[test]
fn no_connection_leaves_every_site_alone() {
    for norm in [Norm::L1, Norm::L2, Norm::LInf] {
        let mut sampler = Sampler::new(1.0, 0.0, derive_stream(42, 0));
        assert_eq!(realize(norm, 10, &mut sampler), vec![1; 100]);
        assert_eq!(sampler.sampler().draws, 0);
    }
}

#[test]
fn cluster_sizes_add_up_under_every_metric() {
    for norm in [Norm::L1, Norm::L2, Norm::LInf] {
        for (l, alpha, beta, seed) in [(4usize, 1.5, 0.5, 123u64), (7, 0.5, 0.2, 7), (12, 2.0, 0.9, 99)] {
            let mut sampler = Sampler::new(alpha, beta, derive_stream(seed, 0));
            let sizes = realize(norm, l, &mut sampler);
            assert_eq!(sizes.iter().sum::<usize>(), l * l);
            assert!(sizes.iter().all(|&s| s >= 1));
        }
    }
}

#[test]
fn the_fast_paths_take_no_draw() {
    // beta = 1, alpha = 0 under L1: the four classes at distance one are
    // certain, every other class is open and draws at least once.
    let mut sampler = Sampler::new(0.0, 1.0, derive_stream(5, 0));
    realize(Norm::L1, 3, &mut sampler);
    assert!(sampler.sampler().draws >= 4);

    let mut certain = scripted(Chance::Certain, vec![7]);
    assert_eq!(realize(Norm::L1, 3, &mut certain), vec![9]);
    assert_eq!(certain.sampler().next, 0);

    let mut negligible = scripted(Chance::Negligible, vec![0]);
    assert_eq!(realize(Norm::L1, 3, &mut negligible), vec![1; 9]);
    assert_eq!(negligible.sampler().next, 0);
}

#[test]
fn an_open_chance_takes_one_draw_per_step() {
    let mut open = scripted(Chance::Open, vec![3, 0, 1]);
    assert_eq!(geometric_skip(Chance::Open, &mut open), 3);
    assert_eq!(geometric_skip(Chance::Open, &mut open), 0);
    assert_eq!(geometric_skip(Chance::Certain, &mut open), 0);
    assert_eq!(geometric_skip(Chance::Negligible, &mut open), usize::MAX);
    assert_eq!(geometric_skip(Chance::Open, &mut open), 1);
    assert_eq!(open.sampler().next, 3);
}

#[test]
fn the_sampler_is_told_the_distance_of_each_class() {
    let mut l1 = scripted(Chance::Negligible, vec![0]);
    lr_percolation_2d::<L1, _>(3, &mut l1);
    assert_eq!(
        l1.sampler().entered,
        vec![
            Distance::Whole(1),
            Distance::Whole(1),
            Distance::Whole(1),
            Distance::Whole(2),
            Distance::Whole(2),
            Distance::Whole(1),
            Distance::Whole(2),
            Distance::Whole(2),
        ]
    );
    let mut l2 = scripted(Chance::Negligible, vec![0]);
    lr_percolation_2d::<L2, _>(4, &mut l2);
    assert_eq!(l2.sampler().entered.len(), 15);
    assert_eq!(&l2.sampler().entered[..3], &[Distance::Root(1), Distance::Root(4), Distance::Root(1)]);
    assert_eq!(l2.sampler().entered[9], Distance::Root(8));
    let mut linf = scripted(Chance::Negligible, vec![0]);
    lr_percolation_2d::<LInf, _>(4, &mut linf);
    assert_eq!(&linf.sampler().entered[3..7], &[
        Distance::Whole(1),
        Distance::Whole(1),
        Distance::Whole(2),
        Distance::Whole(1),
    ]);
}

#[test]
fn recorded_skips_give_the_recorded_clusters() {
    // side 2, every class open, skips 1, 0, 1, 0, ...:
    // class (0, 1): skip 1 bonds site 1 to site 0; skip 0 bonds site 2 to 3;
    //               skip 1 leaves the lattice.
    let mut sampler = scripted(Chance::Open, vec![1, 0]);
    let mut clusters = lr_percolation_2d::<L1, _>(2, &mut sampler);
    assert_eq!(clusters.find(0), clusters.find(1));
    assert_eq!(clusters.find(2), clusters.find(3));
    assert_eq!(clusters.cluster_sizes().iter().sum::<usize>(), 4);
}

#[test]
fn a_realization_is_reproduced_from_its_stream() {
    for index in 0..5u64 {
        let mut first = Sampler::new(1.0, 0.3, derive_stream(42, index));
        let mut second = Sampler::new(1.0, 0.3, derive_stream(42, index));
        let a = realize(Norm::L2, 8, &mut first);
        let b = realize(Norm::L2, 8, &mut second);
        assert_eq!(a, b);
        assert_eq!(first.sampler().draws, second.sampler().draws);
    }
}

#[test]
fn streams_of_one_seed_are_independent_of_each_other() {
    let batch: Vec<Vec<usize>> = (0..5u64)
        .map(|index| realize(Norm::L1, 8, &mut Sampler::new(1.0, 0.3, derive_stream(7, index))))
        .collect();
    // the third realization alone equals the third of the batch
    let alone = realize(Norm::L1, 8, &mut Sampler::new(1.0, 0.3, derive_stream(7, 2)));
    assert_eq!(alone, batch[2]);
    for sizes in &batch {
        assert_eq!(sizes.iter().sum::<usize>(), 64);
    }
}

#[test]
fn the_empty_lattice_has_no_cluster() {
    let mut sampler = Sampler::new(1.0, 0.5, derive_stream(1, 0));
    assert_eq!(realize(Norm::L1, 0, &mut sampler), Vec::<usize>::new());
    assert_eq!(sampler.sampler().draws, 0);
}

#[test]
fn a_derived_stream_is_keyed_by_the_seed_and_numbered_by_the_index() {
    let rng = derive_stream(42, 3);
    assert_eq!(rng.get_seed(), ChaCha8Rng::seed_from_u64(42).get_seed());
    assert_eq!(rng.get_stream(), 3);
    assert_eq!(rng.get_word_pos(), 0);
    let other = derive_stream(43, 3);
    assert_ne!(other.get_seed(), rng.get_seed());
    assert_eq!(derive_stream(42, 0), ChaCha8Rng::seed_from_u64(42));
}

#[test]
fn a_derived_stream_yields_the_words_of_its_index() {
    let mut first = derive_stream(42, 1);
    let mut again = derive_stream(42, 1);
    let mut other = derive_stream(42, 2);
    let mut plain = ChaCha8Rng::seed_from_u64(42);
    let a: Vec<u64> = (0..8).map(|_| first.random::<u64>()).collect();
    let b: Vec<u64> = (0..8).map(|_| again.random::<u64>()).collect();
    let c: Vec<u64> = (0..8).map(|_| other.random::<u64>()).collect();
    let d: Vec<u64> = (0..8).map(|_| plain.random::<u64>()).collect();
    assert_eq!(a, b);
    assert_ne!(a, c);
    assert_ne!(a, d);
}

/// The observables of a realization: the mean cluster size, the sum of the
/// squared sizes over the number of sites, and the size spread, the sum of
/// the fourth powers over the square of the sum of the squares.
fn observables(l: usize, sizes: &[usize]) -> (f64, f64) {
    let mut sum_power2: f64 = 0.0;
    let mut sum_power4: f64 = 0.0;
    for size in sizes.iter().map(|&c| c as f64) {
        sum_power2 += size.powi(2);
        sum_power4 += size.powi(4);
    }
    (sum_power2 / (l * l) as f64, sum_power4 / sum_power2.powi(2))
}

#[test]
fn observables_of_the_two_extremes() {
    let l = 10;
    let mut none = Sampler::new(1.0, 0.0, derive_stream(42, 0));
    let alone = realize(Norm::L1, l, &mut none);
    assert_eq!(observables(l, &alone), (1.0, 0.01));

    let mut all = Sampler::new(0.0, 1.0, derive_stream(42, 0));
    let joined = realize(Norm::L1, l, &mut all);
    assert_eq!(observables(l, &joined), (100.0, 1.0));
}

#[test]
fn observables_of_a_mixed_realization() {
    // clusters of sizes 2, 1, 1 on a lattice of side 2:
    // the squares add up to 6, the fourth powers to 18
    // (only the first step, in the class (0, 1), bonds: site 0 to site 1)
    let mut sampler = scripted(Chance::Open, vec![0, 9, 9, 9]);
    let sizes = realize(Norm::L1, 2, &mut sampler);
    assert_eq!(sampler.sampler().next, 4);
    assert_eq!(sizes, vec![2, 1, 1]);
    assert_eq!(observables(2, &sizes), (1.5, 0.5));
}

#[test]
fn a_lattice_of_one_site_asks_nothing() {
    for norm in [Norm::L1, Norm::L2, Norm::LInf] {
        let mut sampler = scripted(Chance::Certain, vec![0]);
        assert_eq!(realize(norm, 1, &mut sampler), vec![1]);
        assert_eq!(sampler.sampler().entered.len(), 0);
        assert_eq!(sampler.sampler().next, 0);
        let mut sampler = scripted(Chance::Open, vec![0]);
        assert_eq!(realize(norm, 0, &mut sampler), Vec::<usize>::new());
        assert_eq!(sampler.sampler().entered.len(), 0);
        assert_eq!(sampler.sampler().next, 0);
    }
}

#[test]
fn every_class_is_entered_once_and_open_classes_draw_once_per_step() {
    // side 2, every class open, every skip 1: each of the three classes
    // takes the step onto site 1 and the step that leaves the lattice
    let mut sampler = scripted(Chance::Open, vec![1]);
    lr_percolation_2d::<L1, _>(2, &mut sampler);
    assert_eq!(sampler.sampler().entered.len(), 3);
    assert_eq!(sampler.sampler().next, 6);
}

#[test]
fn realize_reaches_the_metric_of_its_tag() {
    let mut l1 = scripted(Chance::Negligible, vec![0]);
    realize(Norm::L1, 2, &mut l1);
    assert_eq!(
        l1.sampler().entered,
        vec![Distance::Whole(1), Distance::Whole(1), Distance::Whole(2)]
    );
    let mut l2 = scripted(Chance::Negligible, vec![0]);
    realize(Norm::L2, 2, &mut l2);
    assert_eq!(
        l2.sampler().entered,
        vec![Distance::Root(1), Distance::Root(1), Distance::Root(2)]
    );
    let mut linf = scripted(Chance::Negligible, vec![0]);
    realize(Norm::LInf, 2, &mut linf);
    assert_eq!(
        linf.sampler().entered,
        vec![Distance::Whole(1), Distance::Whole(1), Distance::Whole(1)]
    );
}
