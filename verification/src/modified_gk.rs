//! The production quantile summary: a modified Greenwald-Khanna algorithm
//! with micro-compression at insertion time and a streaming merge.

pub mod merge_cursor;
pub mod sample;
pub mod samples_compressor;
pub mod samples_tree;
pub mod summary;
pub mod summary_writer;

pub use sample::Sample;
pub use summary::Summary;
pub use summary_writer::SummaryWriter;
