//! Complex analysis toolkit: the discrete core.
//!
//! Holds the parts of contour integration, Cauchy integrals, Laurent series,
//! residue classification, the argument principle and agent frequency analysis
//! that decide things by integers, indices and orderings.

pub mod integration;
pub mod magnitude;
pub mod agent_frequency;
pub mod argument;
pub mod series;
pub mod residue;
pub mod cauchy;
pub mod holomorphic;
