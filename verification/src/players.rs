pub mod random;
pub mod sensible;
