pub mod magnitude;
pub mod collatz;
pub mod registry;
pub mod sweep;
pub mod parse;
pub mod laws;
