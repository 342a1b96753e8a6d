//! Deduction engine for tracking a hidden mover on a square grid: a log of
//! reported moves and clues, the branching set of relative paths it allows,
//! and the concrete positions that fit a map.

pub mod intel;
pub mod radar;
pub mod session;
