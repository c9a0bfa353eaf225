pub mod dice;
pub mod splines;
