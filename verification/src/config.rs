//! How a report is laid out.

use vstd::prelude::*;

verus! {

/// What the durations of a comparison are measured against.
#[derive(Clone, Copy, PartialEq, Eq, Debug, Structural)]
pub enum RankingConfig {
    /// Against the benchmark that was named first.
    Baseline,
    /// Against the fastest benchmark.
    Benchmark,
}

/// How a normalised duration is shown.
#[derive(Clone, Copy, PartialEq, Eq, Debug, Structural)]
pub enum ValueFormat {
    /// As a multiple of the basis.
    Real,
    /// As a percentage of the basis.
    Percent,
}

/// The settings of one report.
#[derive(Clone, Copy, PartialEq, Eq, Debug, Structural)]
pub struct DisplayConfig {
    /// One row for each benchmark if set, else one wide table.
    pub list: bool,
    pub rank: RankingConfig,
    pub value_format: ValueFormat,
}

} // verus!
