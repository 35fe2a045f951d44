use vstd::prelude::*;

verus! {

/// Largest coordinate magnitude a substrate position may carry.  Together
/// with `DIMENSION_LIMIT` it keeps every squared distance, and every sum of
/// squared distances, inside the machine integers the library computes with.
pub const COORD_LIMIT: i64 = 1_000_000;

/// Largest number of coordinates a position may have.
pub const DIMENSION_LIMIT: usize = 64;

/// Upper bound of `distance_square`: DIMENSION_LIMIT * (2 * COORD_LIMIT)^2.
pub const DIST_SQ_LIMIT: i64 = 256_000_000_000_000;

/// A coordinate sequence small enough for exact squared-distance arithmetic.
pub open spec fn coords_bounded(s: Seq<i64>) -> bool {
    &&& s.len() <= DIMENSION_LIMIT
    &&& forall|i: int| 0 <= i < s.len() ==> -COORD_LIMIT <= #[trigger] s[i] <= COORD_LIMIT
}

/// Sum of the squared coordinate differences over the first `n` coordinates.
pub open spec fn dist_sq_prefix(a: Seq<i64>, b: Seq<i64>, n: int) -> int
    decreases n,
{
    if n <= 0 {
        0
    } else {
        dist_sq_prefix(a, b, n - 1) + (a[n - 1] - b[n - 1]) * (a[n - 1] - b[n - 1])
    }
}

/// Squared Euclidean distance between two coordinate sequences.
pub open spec fn dist_sq(a: Seq<i64>, b: Seq<i64>) -> int {
    dist_sq_prefix(a, b, a.len() as int)
}

pub proof fn lemma_dist_sq_prefix_bounds(a: Seq<i64>, b: Seq<i64>, n: int)
    requires
        coords_bounded(a),
        coords_bounded(b),
        0 <= n <= a.len(),
        n <= b.len(),
    ensures
        0 <= dist_sq_prefix(a, b, n) <= n * 4_000_000_000_000,
    decreases n,
{
    if n > 0 {
        lemma_dist_sq_prefix_bounds(a, b, n - 1);
        let d: int = a[n - 1] - b[n - 1];
        assert(0 <= d * d <= 4_000_000_000_000) by (nonlinear_arith)
            requires -2_000_000 <= d <= 2_000_000,
        {}
        assert(n * 4_000_000_000_000 == (n - 1) * 4_000_000_000_000 + 4_000_000_000_000)
            by (nonlinear_arith);
    }
}

/// A squared distance is a sum of squares, so it is never negative,
/// whatever the coordinates.
pub proof fn lemma_dist_sq_nonneg(a: Seq<i64>, b: Seq<i64>)
    ensures
        0 <= dist_sq(a, b),
{
    lemma_dist_sq_prefix_nonneg(a, b, a.len() as int);
}

proof fn lemma_dist_sq_prefix_nonneg(a: Seq<i64>, b: Seq<i64>, n: int)
    ensures
        0 <= dist_sq_prefix(a, b, n),
    decreases n,
{
    if n > 0 {
        lemma_dist_sq_prefix_nonneg(a, b, n - 1);
        let d: int = a[n - 1] - b[n - 1];
        assert(0 <= d * d) by (nonlinear_arith);
    }
}

/// A fixed-dimensional spatial position of a substrate node.
#[derive(Clone)]
pub struct Position {
    coords: Vec<i64>,
}

impl View for Position {
    type V = Seq<i64>;

    closed spec fn view(&self) -> Seq<i64> {
        self.coords@
    }
}

impl Position {
    /// Coordinates small enough that distance arithmetic cannot overflow.
    pub open spec fn wf(&self) -> bool {
        coords_bounded(self@)
    }

    pub fn new(coords: Vec<i64>) -> (r: Position)
        requires
            coords_bounded(coords@),
        ensures
            r@ == coords@,
            r.wf(),
    {
        Position { coords }
    }

    pub fn coords(&self) -> (r: &Vec<i64>)
        ensures
            r@ == self@,
    {
        &self.coords
    }

    pub fn dimension(&self) -> (r: usize)
        ensures
            r == self@.len(),
    {
        self.coords.len()
    }

    /// Squared Euclidean distance to `other`; never negative.
    pub fn distance_square(&self, other: &Position) -> (r: i64)
        requires
            self.wf(),
            other.wf(),
            self@.len() == other@.len(),
        ensures
            r as int == dist_sq(self@, other@),
            0 <= r <= DIST_SQ_LIMIT,
    {
        let n: usize = self.coords.len();
        let mut acc: i64 = 0;
        let mut i: usize = 0;
        while i < n
            invariant
                0 <= i <= n,
                n == self@.len(),
                n == other@.len(),
                self.wf(),
                other.wf(),
                acc as int == dist_sq_prefix(self@, other@, i as int),
                0 <= acc <= (i as int) * 4_000_000_000_000,
            decreases n - i,
        {
            proof {
                lemma_dist_sq_prefix_bounds(self@, other@, i + 1);
            }
            let d: i64 = self.coords[i] - other.coords[i];
            let sq: i64 = d * d;
            assert(0 <= d * d <= 4_000_000_000_000) by (nonlinear_arith)
                requires -2_000_000 <= d <= 2_000_000,
            {}
            assert((i + 1) as int * 4_000_000_000_000
                == (i as int) * 4_000_000_000_000 + 4_000_000_000_000) by (nonlinear_arith);
            acc = acc + sq;
            i = i + 1;
        }
        proof {
            lemma_dist_sq_prefix_bounds(self@, other@, n as int);
            assert((n as int) * 4_000_000_000_000 <= 64 * 4_000_000_000_000) by (nonlinear_arith)
                requires 0 <= n <= 64,
            {}
        }
        acc
    }
}

/// A substrate node: a position together with a caller-chosen payload.
pub struct Node<T> {
    pub position: Position,
    pub node_info: T,
}

/// A candidate link: an ordered pair of indices into the substrate's node list.
#[derive(Clone, Copy, PartialEq, Eq, Structural)]
pub struct Link {
    pub source: usize,
    pub target: usize,
}

} // verus!
