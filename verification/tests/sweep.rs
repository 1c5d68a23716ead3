use lr_percolation::lattice::{bond_partner, max_side, periodic_offset, site_count};
use lr_percolation::sweep::Sweep;

fn run_on(side: usize, skips: &[usize]) -> Sweep {
    let mut sweep = Sweep::new(side);
    for &skip in skips {
        if sweep.is_done() {
            break;
        }
        sweep.advance(skip);
    }
    sweep
}

fn run_with(side: usize, skip: usize) -> (Vec<usize>, usize) {
    let mut sweep = Sweep::new(side);
    let mut steps = 0;
    while !sweep.is_done() {
        sweep.advance(skip);
        steps += 1;
    }
    (sweep.into_clusters().cluster_sizes(), steps)
}

#[test]
fn site_count_is_the_square_of_the_side() {
    assert_eq!(site_count(0), Some(0));
    assert_eq!(site_count(1), Some(1));
    assert_eq!(site_count(10), Some(100));
    assert_eq!(site_count(300), Some(90000));
}

#[test]
fn site_count_refuses_a_side_whose_square_overflows() {
    let half = 1usize << (usize::BITS / 2);
    assert_eq!(site_count(half), None);
    assert_eq!(site_count(usize::MAX), None);
    assert_eq!(site_count(half - 1), Some((half - 1) * (half - 1)));
}

#[test]
fn periodic_offset_is_the_shorter_way_round() {
    assert_eq!(periodic_offset(0, 10), 0);
    assert_eq!(periodic_offset(1, 10), 1);
    assert_eq!(periodic_offset(5, 10), 5);
    assert_eq!(periodic_offset(6, 10), 4);
    assert_eq!(periodic_offset(9, 10), 1);
    assert_eq!(periodic_offset(3, 7), 3);
    assert_eq!(periodic_offset(4, 7), 3);
    assert_eq!(periodic_offset(10, 10), 0);
}

#[test]
fn bond_partner_shifts_row_and_column() {
    // site 23 of a lattice of side 10 lies in row 2, column 3
    assert_eq!(bond_partner(10, 0, 1, 23), 24);
    assert_eq!(bond_partner(10, 1, 0, 23), 33);
    assert_eq!(bond_partner(10, 4, 5, 23), 68);
    assert_eq!(bond_partner(10, 0, 0, 23), 23);
}

#[test]
fn bond_partner_wraps_round() {
    assert_eq!(bond_partner(10, 0, 1, 9), 0);
    assert_eq!(bond_partner(10, 1, 0, 90), 0);
    assert_eq!(bond_partner(10, 1, 1, 99), 0);
    assert_eq!(bond_partner(10, 9, 9, 0), 99);
    assert_eq!(bond_partner(3, 2, 2, 4), 0);
    assert_eq!(bond_partner(1, 0, 0, 0), 0);
}

#[test]
fn a_sweep_starts_at_the_first_class() {
    let sweep = Sweep::new(4);
    assert!(!sweep.is_done());
    assert_eq!(sweep.side(), 4);
    assert_eq!(sweep.offset(), (0, 1));
    assert_eq!(sweep.site(), 0);
    assert_eq!(sweep.periodic_offset(), (0, 1));
    assert_eq!(sweep.clusters().cluster_sizes(), vec![1; 16]);
}

#[test]
fn the_smallest_lattices_have_no_class() {
    let empty = Sweep::new(0);
    assert!(empty.is_done());
    assert_eq!(empty.into_clusters().cluster_sizes(), Vec::<usize>::new());
    let single = Sweep::new(1);
    assert!(single.is_done());
    assert_eq!(single.into_clusters().cluster_sizes(), vec![1]);
}

#[test]
fn the_classes_come_row_by_row_without_the_origin() {
    let mut sweep = Sweep::new(3);
    let mut seen = Vec::new();
    while !sweep.is_done() {
        seen.push(sweep.offset());
        sweep.pass_class();
    }
    assert_eq!(
        seen,
        vec![(0, 1), (0, 2), (1, 0), (1, 1), (1, 2), (2, 0), (2, 1), (2, 2)]
    );
}

#[test]
fn the_periodic_offsets_of_the_classes() {
    let mut sweep = Sweep::new(5);
    let mut seen = Vec::new();
    while !sweep.is_done() {
        seen.push(sweep.periodic_offset());
        sweep.pass_class();
    }
    assert_eq!(seen.len(), 24);
    assert_eq!(&seen[..4], &[(0, 1), (0, 2), (0, 2), (0, 1)]);
    assert_eq!(&seen[4..9], &[(1, 0), (1, 1), (1, 2), (1, 2), (1, 1)]);
    assert_eq!(&seen[19..], &[(1, 0), (1, 1), (1, 2), (1, 2), (1, 1)]);
}

#[test]
fn a_step_bonds_the_site_it_reaches() {
    let mut sweep = Sweep::new(3);
    // class (0, 1): pass over two sites, bond site 2 to site 0 of its row
    assert!(sweep.advance(2));
    assert_eq!(sweep.site(), 3);
    assert_eq!(sweep.offset(), (0, 1));
    let mut clusters = sweep.into_clusters();
    assert_eq!(clusters.find(2), clusters.find(0));
    assert_ne!(clusters.find(1), clusters.find(0));
    assert_eq!(clusters.cluster_sizes(), vec![1, 2, 1, 1, 1, 1, 1, 1]);
}

#[test]
fn a_step_onto_the_last_site_ends_the_class() {
    let mut sweep = Sweep::new(2);
    assert!(!sweep.advance(3));
    assert_eq!(sweep.offset(), (1, 0));
    assert_eq!(sweep.site(), 0);
    // site 3 = (1, 1) was bonded to (1, 0) = site 2
    let mut clusters = sweep.into_clusters();
    assert_eq!(clusters.find(3), clusters.find(2));
    assert_eq!(clusters.cluster_sizes(), vec![1, 1, 2]);
}

#[test]
fn a_step_past_the_last_site_bonds_nothing() {
    let mut sweep = Sweep::new(2);
    assert!(!sweep.advance(4));
    assert_eq!(sweep.offset(), (1, 0));
    assert_eq!(sweep.clusters().cluster_sizes(), vec![1, 1, 1, 1]);
}

#[test]
fn the_largest_skip_saturates() {
    let mut sweep = Sweep::new(3);
    // site 4 is bonded to site 5, the next of its row
    assert!(sweep.advance(4));
    assert_eq!(sweep.site(), 5);
    // from site 5 the largest skip must not wrap round to a site
    assert!(!sweep.advance(usize::MAX));
    assert_eq!(sweep.offset(), (0, 2));
    assert_eq!(sweep.site(), 0);
    assert_eq!(sweep.clusters().cluster_sizes(), vec![1, 1, 1, 1, 2, 1, 1, 1]);
    assert!(!sweep.advance(usize::MAX - 1));
    assert_eq!(sweep.offset(), (1, 0));
    assert_eq!(sweep.clusters().cluster_sizes(), vec![1, 1, 1, 1, 2, 1, 1, 1]);
}

#[test]
fn skips_of_zero_join_all_sites() {
    for side in 1..7usize {
        let (sizes, steps) = run_with(side, 0);
        assert_eq!(sizes, vec![side * side]);
        assert_eq!(steps, (side * side - 1) * side * side);
    }
}

#[test]
fn bonded_nearest_neighbours_join_all_sites() {
    // zero in the classes (0, 1) and (1, 0), the largest skip elsewhere
    for side in 2..7usize {
        let mut sweep = Sweep::new(side);
        while !sweep.is_done() {
            let class = sweep.offset();
            if class == (0, 1) || class == (1, 0) {
                sweep.advance(0);
            } else {
                sweep.advance(usize::MAX);
            }
        }
        assert_eq!(sweep.into_clusters().cluster_sizes(), vec![side * side]);
    }
}

#[test]
fn saturated_skips_join_no_sites() {
    for side in 0..7usize {
        let (sizes, steps) = run_with(side, usize::MAX);
        assert_eq!(sizes, vec![1; side * side]);
        assert_eq!(steps, (side * side).saturating_sub(1));
        let (sizes, _) = run_with(side, side * side);
        assert_eq!(sizes, vec![1; side * side]);
    }
}

#[test]
fn a_sweep_is_a_function_of_its_skips() {
    let skips = [1usize, 0, 7, 2, 2, 9, 0, 0, 3, 1, 4, 1, 5, 9, 2, 6, 5, 3, 5, 8, 9, 7, 9, 3];
    let first = run_on(4, &skips);
    let second = run_on(4, &skips);
    assert_eq!(first.offset(), second.offset());
    assert_eq!(first.site(), second.site());
    let mut a = first.into_clusters();
    let mut b = second.into_clusters();
    for site in 0..16 {
        assert_eq!(a.find(site), b.find(site));
    }
    assert_eq!(a.cluster_sizes().iter().sum::<usize>(), 16);
}

#[test]
fn skips_after_the_last_class_are_not_taken() {
    let sweep = run_on(1, &[0, 0, 0]);
    assert!(sweep.is_done());
    assert_eq!(sweep.into_clusters().cluster_sizes(), vec![1]);
}

#[test]
fn max_side_is_the_largest_side_that_fits() {
    let limit = max_side();
    assert_eq!(limit, (1usize << (usize::BITS / 2)) - 1);
    assert_eq!(site_count(limit), Some(limit * limit));
    assert_eq!(site_count(limit + 1), None);
    assert!(site_count(limit - 1).is_some());
}
