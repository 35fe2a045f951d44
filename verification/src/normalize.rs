use vstd::prelude::*;
use vstd::arithmetic::div_mod::{lemma_div_pos_is_pos, lemma_div_is_ordered, lemma_div_multiples_vanish};
use crate::SCALE;

verus! {

/// Largest raw edge-weight magnitude accepted by the rescaling: keeps the
/// rescaling arithmetic inside `i64`.
pub const WEIGHT_LIMIT: i64 = 1_000_000_000;

/// Minimum of the first `n` weights.
pub open spec fn weights_min(s: Seq<i64>, n: int) -> int
    decreases n,
{
    if n <= 1 {
        s[0] as int
    } else {
        let m: int = weights_min(s, n - 1);
        if (s[n - 1] as int) < m {
            s[n - 1] as int
        } else {
            m
        }
    }
}

/// Maximum of the first `n` weights.
pub open spec fn weights_max(s: Seq<i64>, n: int) -> int
    decreases n,
{
    if n <= 1 {
        s[0] as int
    } else {
        let m: int = weights_max(s, n - 1);
        if (s[n - 1] as int) > m {
            s[n - 1] as int
        } else {
            m
        }
    }
}

/// The observed (minimum, maximum) over a non-empty list of raw edge
/// weights.
pub fn determine_edge_value_range(weights: &Vec<i64>) -> (r: (i64, i64))
    requires
        weights@.len() >= 1,
    ensures
        r.0 as int == weights_min(weights@, weights@.len() as int),
        r.1 as int == weights_max(weights@, weights@.len() as int),
        r.0 <= r.1,
{
    let n: usize = weights.len();
    let mut w_min: i64 = weights[0];
    let mut w_max: i64 = weights[0];
    let mut i: usize = 1;
    while i < n
        invariant
            1 <= i <= n,
            n == weights@.len(),
            w_min as int == weights_min(weights@, i as int),
            w_max as int == weights_max(weights@, i as int),
            w_min <= w_max,
        decreases n - i,
    {
        if weights[i] < w_min {
            w_min = weights[i];
        }
        if weights[i] > w_max {
            w_max = weights[i];
        }
        i = i + 1;
    }
    (w_min, w_max)
}

/// Linearly rescales `w` from the observed `range` into the fixed-point
/// closed unit interval `0 ..= SCALE`.
///
/// The degenerate range, where the observed minimum equals the maximum,
/// rescales every weight to exactly 0 rather than dividing by zero.
pub fn normalize_to_closed01(w: i64, range: (i64, i64)) -> (r: i64)
    requires
        range.0 <= range.1,
        range.0 < range.1 ==> range.0 <= w <= range.1,
        -WEIGHT_LIMIT <= range.0,
        range.1 <= WEIGHT_LIMIT,
        -WEIGHT_LIMIT <= w <= WEIGHT_LIMIT,
    ensures
        range.0 == range.1 ==> r == 0,
        range.0 < range.1 ==> r as int == (w - range.0) * (SCALE as int) / (range.1 - range.0),
        0 <= r <= SCALE,
{
    let dist: i64 = range.1 - range.0;
    if dist == 0 {
        0
    } else {
        let num: i64 = (w - range.0) * SCALE;
        proof {
            let delta: int = w - range.0;
            let d: int = dist as int;
            assert(0 <= delta * 1_000_000 <= 2_000_000_000_000_000) by (nonlinear_arith)
                requires 0 <= delta <= 2_000_000_000,
            {}
            assert(delta * 1_000_000 <= d * 1_000_000) by (nonlinear_arith)
                requires 0 <= delta <= d,
            {}
            lemma_div_pos_is_pos(delta * 1_000_000, d);
            lemma_div_is_ordered(delta * 1_000_000, d * 1_000_000, d);
            lemma_div_multiples_vanish(1_000_000, d);
        }
        num / dist
    }
}

} // verus!
