pub mod builders;
pub mod develop;
pub mod fingerprint;
pub mod graph;
pub mod normalize;
pub mod similarity;
pub mod substrate;

use vstd::prelude::*;

verus! {

/// Scale of the fixed-point scalars used throughout the library: a scalar
/// value v stands for the real number v / SCALE.
pub const SCALE: i64 = 1_000_000;

/// Sign convention shared by the fingerprint: a scalar is recorded as a
/// `true` bit exactly when it is non-negative.
pub open spec fn sign_bit(v: i64) -> bool {
    v >= 0
}

} // verus!
