use vstd::prelude::*;

verus! {

/// Contour integrator by midpoint quadrature with `n_points` samples.
pub struct ContourIntegrator {
    pub n_points: usize,
}

impl ContourIntegrator {
    /// An integrator that samples the contour `n_points` times.
    pub fn new(n_points: usize) -> (r: Self)
        ensures
            r.n_points == n_points,
    {
        ContourIntegrator { n_points }
    }
}

impl Default for ContourIntegrator {
    fn default() -> (r: Self)
        ensures
            r.n_points == 10000,
    {
        ContourIntegrator { n_points: 10000 }
    }
}

/// The edge of a closed polygon with `n_vertices` vertices on which the
/// parameter falls, given the whole part `seg_floor` of `t * n_vertices`: the
/// edge runs from vertex `start` to vertex `end`, the next one around the
/// polygon. Parameters at or past the last edge fall on the last edge.
pub fn polygon_edge(seg_floor: usize, n_vertices: usize) -> (r: (usize, usize))
    requires
        n_vertices > 0,
    ensures
        r.0 == (if seg_floor < n_vertices - 1 {
            seg_floor as int
        } else {
            n_vertices - 1
        }),
        r.1 == (r.0 + 1) % (n_vertices as int),
        r.0 < n_vertices,
        r.1 < n_vertices,
{
    let start = if seg_floor < n_vertices - 1 {
        seg_floor
    } else {
        n_vertices - 1
    };
    let end = (start + 1) % n_vertices;
    (start, end)
}

/// The two samples of a sampled curve between which a parameter falls, given
/// the whole part `idx` of `t * (n_samples - 1)`: both are clamped to the
/// last sample.
pub fn parametric_nodes(idx: usize, n_samples: usize) -> (r: (usize, usize))
    requires
        n_samples > 0,
    ensures
        r.0 == (if idx < n_samples - 1 {
            idx as int
        } else {
            n_samples - 1
        }),
        r.1 == (if r.0 + 1 < n_samples - 1 {
            r.0 + 1
        } else {
            n_samples - 1
        }),
        r.0 < n_samples,
        r.1 < n_samples,
{
    let last = n_samples - 1;
    let clamped = if idx < last {
        idx
    } else {
        last
    };
    let next = if clamped + 1 < last {
        clamped + 1
    } else {
        last
    };
    (clamped, next)
}

} // verus!
