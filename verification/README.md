# lau_complex_analysis

Complex analysis on `Complex64`: contour integration, Cauchy's formula, Taylor
and Laurent series, residues, the argument principle and Rouché's theorem,
Möbius transformations, and frequency analysis of agent signals.

## Layout

- `src/` is the verified core (Verus). It holds every decision these
  computations make by integers, indices and orderings, each with a contract:
  - `magnitude`: magnitudes as order keys (the bit pattern of a non-negative
    double, `None` for a value that is not a number), their extremes;
  - `agent_frequency`: spectral peaks, their stable ranking and the strongest
    ten, the dominant bin, admissible periods, unstable poles, spectral radius
    (and the law that a set of poles is stable exactly when its spectral radius
    is below one);
  - `argument`: the extremes and the verdict of Rouché's condition;
  - `series`: Laurent coefficients by order and the principal part;
  - `residue`: pole order, kind of singularity and residue a_{-1} read off a
    Laurent expansion;
  - `integration`, `cauchy`: integrators, polygon edges and curve samples;
  - `holomorphic`: the row-by-row grid scan used to test for entire functions.
- `app/` is the floating-point layer: all arithmetic on `f64` and `Complex64`
  (quadrature, numerical differentiation, series evaluation, Möbius maps, the
  Z-transform, the autoregressive stability estimate), calling the core for the
  decisions above, and the serializable copies of the core's types.
- `tests/` runs the core on concrete values.
