//! Top-K similarity ranking over a fixed corpus, with the decisions of a
//! latency benchmark around it.
//!
//! Scores travel through this crate as IEEE-754 single-precision bit patterns
//! (`u32`), and a corpus vector is known by its position in the corpus.

pub mod benchmark;
pub mod ranking;
pub mod report;
pub mod score;
pub mod search;

pub use benchmark::{mean_duration, Benchmark, BenchmarkConfig, Report};
pub use ranking::top_positions;
pub use report::report_line;
pub use score::score_key;
pub use search::{check_dimensions, similarity_search, SearchError, MAX_RESULTS};
