//! The periodic square lattice.
//!
//! A lattice of side `side` has `side * side` sites. The site in row `x` and
//! column `y` has the index `x * side + y`. Offsets wrap around: the offset
//! `d` along one axis is as long as the shorter of `d` and `side - d`.

use crate::norms::squares_fit;
use vstd::arithmetic::div_mod::{lemma_mod_bound, lemma_multiply_divide_lt};
use vstd::prelude::*;

verus! {

/// Whether the number of sites of a lattice of side `side` is a `usize`.
pub open spec fn side_fits(side: nat) -> bool {
    side * side <= usize::MAX
}

/// The periodic length of the offset `offset` along one axis.
pub open spec fn periodic(offset: nat, side: nat) -> nat {
    if offset <= side - offset {
        offset
    } else {
        (side - offset) as nat
    }
}

/// The site that lies `dx` rows and `dy` columns from `site`, wrapping round.
pub open spec fn partner(side: nat, dx: nat, dy: nat, site: nat) -> nat {
    ((site / side + dx) % side) * side + (site % side + dy) % side
}

/// The number of sites of a lattice of side `side`, or `None` where that
/// number is no `usize`: the largest lattices that can be indexed are those
/// for which this returns a count.
pub fn site_count(side: usize) -> (count: Option<usize>)
    ensures
        count == if side_fits(side as nat) {
            Some((side * side) as usize)
        } else {
            None::<usize>
        },
{
    side.checked_mul(side)
}

/// The largest side of a lattice whose sites can be indexed.
pub fn max_side() -> (limit: usize)
    ensures
        forall|side: nat| side_fits(side) <==> side <= limit,
{
    let limit: usize = if usize::BITS == 64 {
        0xffff_ffff
    } else {
        0xffff
    };
    proof {
        assert forall|side: nat| side_fits(side) <==> side <= limit by {
            let s = side as int;
            let bound = limit as int;
            if s <= bound {
                assert(s * s <= bound * bound) by (nonlinear_arith)
                    requires
                        0 <= s <= bound,
                ;
            } else {
                assert(s * s >= (bound + 1) * (bound + 1)) by (nonlinear_arith)
                    requires
                        0 <= bound + 1 <= s,
                ;
            }
        }
    }
    limit
}

/// Computes the periodic length of an offset along one axis.
pub fn periodic_offset(offset: usize, side: usize) -> (least: usize)
    requires
        offset <= side,
    ensures
        least == periodic(offset as nat, side as nat),
{
    let wrapped = side - offset;
    if offset <= wrapped {
        offset
    } else {
        wrapped
    }
}

/// Computes the site that lies `dx` rows and `dy` columns from `site`.
pub fn bond_partner(side: usize, dx: usize, dy: usize, site: usize) -> (other: usize)
    requires
        side_fits(side as nat),
        dx < side,
        dy < side,
        site < side * side,
    ensures
        other == partner(side as nat, dx as nat, dy as nat, site as nat),
        other < side * side,
{
    proof {
        lemma_partner_bounds(side as nat, dx as nat, dy as nat, site as nat);
    }
    let row = (site / side + dx) % side;
    let column = (site % side + dy) % side;
    row * side + column
}

/// The row and the column of a site are below the side, and so is what the
/// partner is computed from; the partner is a site of the lattice.
pub proof fn lemma_partner_bounds(side: nat, dx: nat, dy: nat, site: nat)
    requires
        dx < side,
        dy < side,
        site < side * side,
    ensures
        site / side < side,
        site % side < side,
        side + side <= side * side || side == 1,
        ((site / side + dx) % side) * side + side <= side * side,
        partner(side, dx, dy, site) < side * side,
{
    let s = side as int;
    lemma_multiply_divide_lt(site as int, s, s);
    lemma_mod_bound(site as int, s);
    let row = (site / side + dx) % side;
    let column = (site % side + dy) % side;
    lemma_mod_bound((site / side + dx) as int, s);
    lemma_mod_bound((site % side + dy) as int, s);
    assert(row * s + s <= s * s) by (nonlinear_arith)
        requires
            0 <= row < s,
    ;
    assert(s + s <= s * s || s == 1) by (nonlinear_arith)
        requires
            1 <= s,
    ;
}

/// The periodic lengths of the offsets of a lattice whose sites can be
/// indexed have squares that fit, and such a length is zero only for the
/// offset zero.
pub proof fn lemma_periodic(side: usize, dx: usize, dy: usize)
    requires
        side_fits(side as nat),
        dx < side,
        dy < side,
    ensures
        periodic(dx as nat, side as nat) <= usize::MAX,
        periodic(dy as nat, side as nat) <= usize::MAX,
        squares_fit(
            periodic(dx as nat, side as nat) as usize,
            periodic(dy as nat, side as nat) as usize,
        ),
        periodic(dx as nat, side as nat) == 0 <==> dx == 0,
        periodic(dy as nat, side as nat) == 0 <==> dy == 0,
{
    let s = side as int;
    let p = periodic(dx as nat, side as nat) as int;
    let q = periodic(dy as nat, side as nat) as int;
    assert(2 * (p * p + q * q) <= s * s) by (nonlinear_arith)
        requires
            0 <= p,
            0 <= q,
            2 * p <= s,
            2 * q <= s,
    ;
}

} // verus!
