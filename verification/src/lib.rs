pub mod puzzle;
pub mod constraint;
pub mod compile;
pub mod explore;
pub mod laws;
