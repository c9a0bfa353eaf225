//! Dice-roll notation, the discrete rules behind dice-roll distributions, the structure
//! of the spline equation systems used to draw luck graphs, and the order of the
//! database migrations.

pub mod db;
pub mod maths;
pub mod splines;
