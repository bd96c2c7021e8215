//! Renders groups of benchmark measurements as a coloured text report.
//!
//! Every quantity that carries a fraction is held as an integer count of
//! thousandths: durations in picoseconds, thresholds in thousandths of a
//! percent. All arithmetic on them is exact; rounding happens only where a
//! number is turned into text.

pub mod text;
pub mod decimal;
pub mod units;
pub mod config;
pub mod benchmark;
pub mod order;
pub mod comparison;
pub mod style;
pub mod layout;
pub mod report;

pub use benchmark::Benchmark;
pub use comparison::Comparison;
pub use config::{DisplayConfig, RankingConfig, ValueFormat};
pub use decimal::Ratio;
pub use report::Comparisons;
pub use style::{Color, Span};
pub use units::Throughput;
