use vstd::prelude::*;
use crate::magnitude::{
    largest,
    lemma_max_level_bounds,
    lemma_min_key_bounds,
    level,
    max_level,
    min_key,
    smallest,
};

verus! {

/// The argument principle: (1/2πi) ∮_C f'(z)/f(z) dz = Z - P, the zeros minus
/// the poles of f inside C.
pub struct ArgumentPrinciple;

/// Rouché's theorem: if |f(z) - g(z)| < |f(z)| on C, then f and g have the
/// same number of zeros inside C.
pub struct RoucheTheorem;

/// The extremes that decide Rouché's condition on a sampled contour, as keys
/// of magnitudes.
pub struct RoucheBounds {
    /// Whether the largest |f - g| lies below the smallest |f|; where it does,
    /// |f - g| < |f| at every sample.
    pub condition_holds: bool,
    /// The largest sampled |f - g|, starting from zero.
    pub max_difference: u64,
    /// The smallest sampled |f|, starting from infinity.
    pub min_f_norm: u64,
}

/// Decides Rouché's condition from the samples |f(z_k) - g(z_k)| and |f(z_k)|
/// taken along the contour.
pub fn rouche_bounds(differences: &Vec<Option<u64>>, f_norms: &Vec<Option<u64>>) -> (r: RoucheBounds)
    ensures
        r.max_difference == max_level(differences@),
        r.min_f_norm == min_key(f_norms@),
        r.condition_holds == (r.max_difference < r.min_f_norm),
        forall|i: int| #![trigger differences@[i]] 0 <= i < differences.len() ==> (if differences@[i] is Some { differences@[i]->0 } else { 0u64 }) <= r.max_difference,
        r.max_difference == 0 || exists|i: int| #![trigger differences@[i]]
            0 <= i < differences.len() && differences@[i] == Some(r.max_difference),
        forall|i: int| #![trigger f_norms@[i]]
            0 <= i < f_norms.len() && f_norms@[i] is Some ==> r.min_f_norm <= f_norms@[i]->0,
        r.min_f_norm == 0x7FF0_0000_0000_0000u64 || exists|i: int| #![trigger f_norms@[i]]
            0 <= i < f_norms.len() && f_norms@[i] == Some(r.min_f_norm),
        r.condition_holds ==> forall|k: int|
            0 <= k < differences.len() && 0 <= k < f_norms.len() && (#[trigger] f_norms@[k]) is Some
                ==> (if differences@[k] is Some { differences@[k]->0 } else { 0u64 }) < f_norms@[k]->0,
{
    let max_difference = largest(differences);
    let min_f_norm = smallest(f_norms);
    proof {
        if max_difference < min_f_norm {
            lemma_rouche_condition_pointwise(differences@, f_norms@);
        }
    }
    RoucheBounds { condition_holds: max_difference < min_f_norm, max_difference, min_f_norm }
}

/// Where the largest difference lies below the smallest |f|, |f - g| < |f|
/// at every sample at which |f| is a number.
proof fn lemma_rouche_condition_pointwise(differences: Seq<Option<u64>>, f_norms: Seq<Option<u64>>)
    requires
        max_level(differences) < min_key(f_norms),
    ensures
        forall|k: int|
            0 <= k < differences.len() && 0 <= k < f_norms.len() && (#[trigger] f_norms[k]) is Some
                ==> level(differences[k]) < f_norms[k]->0,
{
    lemma_max_level_bounds(differences);
    lemma_min_key_bounds(f_norms);
    assert forall|k: int|
        0 <= k < differences.len() && 0 <= k < f_norms.len() && (#[trigger] f_norms[k]) is Some
            implies level(differences[k]) < f_norms[k]->0 by {
        assert(level(differences[k]) <= max_level(differences));
    }
}

} // verus!
