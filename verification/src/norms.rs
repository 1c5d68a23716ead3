//! Distance metrics on periodic lattice offsets.
//!
//! A metric maps a pair of non-negative offsets to a distance. Every distance
//! that the supported metrics produce is either a whole number or the square
//! root of one, so it is held exactly as a [`Distance`].

use vstd::prelude::*;

verus! {

/// Selects one of the supported metrics.
#[derive(Debug, Clone, Copy, PartialEq, Eq, Structural)]
pub enum Norm {
    L1,
    L2,
    LInf,
}

/// A distance between two lattice sites, held exactly.
#[derive(Debug, Clone, Copy, PartialEq, Eq, Structural)]
pub enum Distance {
    /// A whole number of lattice steps.
    Whole(usize),
    /// The square root of a whole number.
    Root(usize),
}

impl Distance {
    /// The square of the distance.
    pub open spec fn squared(self) -> nat {
        match self {
            Distance::Whole(n) => (n * n) as nat,
            Distance::Root(n) => n as nat,
        }
    }

    /// Whether the distance is exactly zero.
    pub open spec fn zero(self) -> bool {
        match self {
            Distance::Whole(n) => n == 0,
            Distance::Root(n) => n == 0,
        }
    }

    /// Tells whether the distance is exactly zero.
    pub fn is_zero(&self) -> (b: bool)
        ensures
            b == self.zero(),
    {
        match *self {
            Distance::Whole(n) => n == 0,
            Distance::Root(n) => n == 0,
        }
    }
}

/// Both offsets are small enough for the sum of their squares to be a `usize`.
///
/// This holds of every pair of periodic offsets on a lattice whose number of
/// sites is a `usize`.
pub open spec fn squares_fit(x: usize, y: usize) -> bool {
    x * x + y * y <= usize::MAX
}

/// A metric on lattice offsets.
pub trait NormType {
    /// The offsets on which the distance can be computed without overflow.
    spec fn representable(x: usize, y: usize) -> bool;

    /// The distance of the offset `(x, y)` from the origin.
    spec fn distance(x: usize, y: usize) -> Distance;

    /// Offsets whose squares fit are representable, and among them only the
    /// origin lies at distance zero.
    proof fn lemma_norm(x: usize, y: usize)
        requires
            squares_fit(x, y),
        ensures
            Self::representable(x, y),
            Self::distance(x, y).zero() <==> x == 0 && y == 0,
    ;

    /// Computes the distance of the offset `(x, y)` from the origin.
    fn compute_distance(x: usize, y: usize) -> (d: Distance)
        requires
            Self::representable(x, y),
        ensures
            d == Self::distance(x, y),
    ;
}

/// The taxicab metric, `x + y`.
pub struct L1;

/// The Euclidean metric, the square root of `x * x + y * y`.
pub struct L2;

/// The Chebyshev metric, the larger of `x` and `y`.
pub struct LInf;

/// A natural number is no larger than its square.
proof fn lemma_square_dominates(x: int)
    requires
        0 <= x,
    ensures
        x <= x * x,
        x * x == 0 <==> x == 0,
{
    assert(x <= x * x && (x * x == 0 <==> x == 0)) by (nonlinear_arith)
        requires
            0 <= x,
    ;
}

impl NormType for L1 {
    open spec fn representable(x: usize, y: usize) -> bool {
        x + y <= usize::MAX
    }

    open spec fn distance(x: usize, y: usize) -> Distance {
        Distance::Whole((x + y) as usize)
    }

    proof fn lemma_norm(x: usize, y: usize) {
        lemma_square_dominates(x as int);
        lemma_square_dominates(y as int);
    }

    #[inline]
    fn compute_distance(x: usize, y: usize) -> (d: Distance) {
        Distance::Whole(x + y)
    }
}

impl NormType for LInf {
    open spec fn representable(x: usize, y: usize) -> bool {
        true
    }

    open spec fn distance(x: usize, y: usize) -> Distance {
        Distance::Whole(if x >= y { x } else { y })
    }

    proof fn lemma_norm(x: usize, y: usize) {
    }

    #[inline]
    fn compute_distance(x: usize, y: usize) -> (d: Distance) {
        Distance::Whole(if x >= y { x } else { y })
    }
}

impl NormType for L2 {
    open spec fn representable(x: usize, y: usize) -> bool {
        squares_fit(x, y)
    }

    open spec fn distance(x: usize, y: usize) -> Distance {
        Distance::Root((x * x + y * y) as usize)
    }

    proof fn lemma_norm(x: usize, y: usize) {
        lemma_square_dominates(x as int);
        lemma_square_dominates(y as int);
    }

    #[inline]
    fn compute_distance(x: usize, y: usize) -> (d: Distance) {
        proof {
            lemma_square_dominates(x as int);
            lemma_square_dominates(y as int);
        }
        Distance::Root(x * x + y * y)
    }
}

} // verus!
