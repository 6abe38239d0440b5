//! Verified core of a phase-coupled oscillator (generalized Kuramoto) simulator.
//!
//! The library owns the exact, discrete part of the simulator: validating the
//! network and control configuration, assembling the sparse incidence and
//! weight structures from a symmetric connectivity matrix, building the
//! block-normalized cluster-average coupling, selecting the derivative terms
//! for each control regime, and the ring buffer that supplies delayed state to
//! the dynamics. Scalar weights and frequencies are carried as exact binary
//! scalars ([`scalar::Dyadic`]); the floating-point evaluation of the
//! derivative and the numerical integrators live outside the library and are
//! driven by the structures and decisions verified here.

pub mod config;
pub mod delay;
pub mod model;
pub mod rational;
pub mod scalar;
pub mod topology;
