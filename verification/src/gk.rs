//! The classic Greenwald-Khanna quantile summary, kept as a correct baseline
//! against which the modified variant can be cross-checked.

pub mod sample;
pub mod summary;

pub use sample::Sample;
pub use summary::Summary;
