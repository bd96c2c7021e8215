//! One measured benchmark.

use crate::units::Throughput;
use vstd::prelude::*;

verus! {

/// A named measurement.
#[derive(Debug)]
pub struct Benchmark {
    /// The name by which the benchmark is found in its comparison.
    pub name: String,
    /// The mean duration of one run, in picoseconds.
    pub picos: u64,
    /// The standard deviation of the duration, in picoseconds.
    pub stddev: Option<u64>,
    pub throughput: Option<Throughput>,
}

/// A benchmark as the contracts see it.
pub struct BenchmarkView {
    pub name: Seq<char>,
    pub picos: u64,
    pub stddev: Option<u64>,
    pub throughput: Option<Throughput>,
}

impl View for Benchmark {
    type V = BenchmarkView;

    open spec fn view(&self) -> BenchmarkView {
        BenchmarkView {
            name: self.name@,
            picos: self.picos,
            stddev: self.stddev,
            throughput: self.throughput,
        }
    }
}

impl Clone for Benchmark {
    fn clone(&self) -> (b: Benchmark)
        ensures
            b@ == self@,
    {
        Benchmark {
            name: self.name.clone(),
            picos: self.picos,
            stddev: self.stddev,
            throughput: self.throughput,
        }
    }
}

/// The views of a run of benchmarks.
pub open spec fn views(s: Seq<Benchmark>) -> Seq<BenchmarkView> {
    Seq::new(s.len(), |i: int| s[i]@)
}

impl Benchmark {
    /// A benchmark from the figures of one measurement: its full name, its
    /// mean duration and standard deviation in picoseconds, and its
    /// throughput, where one was measured.
    pub fn from_data(
        fullname: &str,
        picos: u64,
        stddev: u64,
        throughput: Option<Throughput>,
    ) -> (b: Benchmark)
        ensures
            b@ == (BenchmarkView {
                name: fullname@,
                picos: picos,
                stddev: Some(stddev),
                throughput: throughput,
            }),
    {
        Benchmark { name: String::from_str(fullname), picos, stddev: Some(stddev), throughput }
    }

    /// The same measurement under another name.
    pub fn name(self, name: &str) -> (b: Benchmark)
        ensures
            b@ == (BenchmarkView { name: name@, ..self@ }),
    {
        Benchmark {
            name: String::from_str(name),
            picos: self.picos,
            stddev: self.stddev,
            throughput: self.throughput,
        }
    }
}

} // verus!
