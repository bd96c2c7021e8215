//! Human-scaled text for durations and throughputs.

use crate::decimal::{digits_of, digits_string, pow10, ratio_string, ratio_text};
use vstd::prelude::*;

verus! {

/// The unit in which a duration is shown.
#[derive(Clone, Copy, PartialEq, Eq, Debug, Structural)]
pub enum TimeUnit {
    Nanos,
    Micros,
    Millis,
    Secs,
}

/// Durations below this many picoseconds are shown in nanoseconds.
pub const MIN_MICRO: u64 = 2_000_000;

/// Durations below this many picoseconds are shown in microseconds at most.
pub const MIN_MILLI: u64 = 2_000_000_000;

/// Durations below this many picoseconds are shown in milliseconds at most.
pub const MIN_SEC: u64 = 2_000_000_000_000;

impl TimeUnit {
    /// The unit for a duration of `picos` picoseconds: the largest one in
    /// which the duration still counts at least two.
    pub open spec fn spec_of(picos: u64) -> TimeUnit {
        if picos < MIN_MICRO {
            TimeUnit::Nanos
        } else if picos < MIN_MILLI {
            TimeUnit::Micros
        } else if picos < MIN_SEC {
            TimeUnit::Millis
        } else {
            TimeUnit::Secs
        }
    }

    /// The picoseconds in one unit.
    pub open spec fn spec_picos(self) -> nat {
        match self {
            TimeUnit::Nanos => 1_000,
            TimeUnit::Micros => 1_000_000,
            TimeUnit::Millis => 1_000_000_000,
            TimeUnit::Secs => 1_000_000_000_000,
        }
    }

    /// The unit's abbreviation.
    pub open spec fn spec_label(self) -> Seq<char> {
        match self {
            TimeUnit::Nanos => "ns"@,
            TimeUnit::Micros => "µs"@,
            TimeUnit::Millis => "ms"@,
            TimeUnit::Secs => "s"@,
        }
    }

    /// Chooses the unit for a duration of `picos` picoseconds.
    pub fn of(picos: u64) -> (u: TimeUnit)
        ensures
            u == TimeUnit::spec_of(picos),
            u == TimeUnit::Nanos <==> picos < 2_000_000,
            u == TimeUnit::Micros <==> 2_000_000 <= picos < 2_000_000_000,
            u == TimeUnit::Millis <==> 2_000_000_000 <= picos < 2_000_000_000_000,
            u == TimeUnit::Secs <==> 2_000_000_000_000 <= picos,
    {
        if picos < MIN_MICRO {
            TimeUnit::Nanos
        } else if picos < MIN_MILLI {
            TimeUnit::Micros
        } else if picos < MIN_SEC {
            TimeUnit::Millis
        } else {
            TimeUnit::Secs
        }
    }

    /// The picoseconds in one unit.
    pub fn picos(&self) -> (p: u64)
        ensures
            p == self.spec_picos(),
    {
        match self {
            TimeUnit::Nanos => 1_000,
            TimeUnit::Micros => 1_000_000,
            TimeUnit::Millis => 1_000_000_000,
            TimeUnit::Secs => 1_000_000_000_000,
        }
    }

    /// The unit's abbreviation.
    pub fn label(&self) -> (s: &'static str)
        ensures
            s@ == self.spec_label(),
    {
        match self {
            TimeUnit::Nanos => "ns",
            TimeUnit::Micros => "µs",
            TimeUnit::Millis => "ms",
            TimeUnit::Secs => "s",
        }
    }
}

/// The text of a duration: the value in its unit with one decimal place, then,
/// where a standard deviation is given, `±` and the deviation in the same unit
/// with two decimal places, then the unit's abbreviation.
pub open spec fn time_text(picos: u64, stddev: Option<u64>) -> Seq<char> {
    let unit = TimeUnit::spec_of(picos);
    let value = ratio_text(picos as nat, unit.spec_picos(), 1);
    match stddev {
        Some(dev) => value + "±"@ + ratio_text(dev as nat, unit.spec_picos(), 2)
            + unit.spec_label(),
        None => value + unit.spec_label(),
    }
}

/// Formats a duration of `picos` picoseconds, with its standard deviation if
/// there is one. The unit is chosen from the duration alone and used for both.
pub fn time(picos: u64, stddev: Option<u64>) -> (s: String)
    ensures
        s@ == time_text(picos, stddev),
{
    let unit: TimeUnit = TimeUnit::of(picos);
    let div: u128 = unit.picos() as u128;
    assert(pow10(1) == 10 && pow10(2) == 100) by {
        reveal_with_fuel(pow10, 3);
    }
    let mut s: String = ratio_string(picos as u128, div, 1);
    match stddev {
        Some(dev) => {
            let d: String = ratio_string(dev as u128, div, 2);
            s.append("±");
            s.append(d.as_str());
        },
        None => {},
    }
    s.append(unit.label());
    s
}

/// How a throughput is scaled for display.
#[derive(Clone, Copy, PartialEq, Eq, Debug, Structural)]
pub enum Scale {
    Unit,
    Kilo,
    Mega,
    Giga,
}

/// Throughputs below this are shown unscaled.
pub const MIN_K: u64 = 2_048;

/// Throughputs below this are shown in multiples of 2^10 at most.
pub const MIN_M: u64 = 2_097_152;

/// Throughputs below this are shown in multiples of 2^20 at most.
pub const MIN_G: u64 = 2_147_483_648;

impl Scale {
    /// The scale for a throughput of `per` units each second.
    pub open spec fn spec_of(per: u64) -> Scale {
        if per < MIN_K {
            Scale::Unit
        } else if per < MIN_M {
            Scale::Kilo
        } else if per < MIN_G {
            Scale::Mega
        } else {
            Scale::Giga
        }
    }

    /// The number of units in one scaled unit.
    pub open spec fn spec_factor(self) -> nat {
        match self {
            Scale::Unit => 1,
            Scale::Kilo => 1_024,
            Scale::Mega => 1_048_576,
            Scale::Giga => 1_073_741_824,
        }
    }

    /// The prefix that the scale puts before the unit's name.
    pub open spec fn spec_prefix(self) -> Seq<char> {
        match self {
            Scale::Unit => ""@,
            Scale::Kilo => "K"@,
            Scale::Mega => "M"@,
            Scale::Giga => "G"@,
        }
    }

    /// Chooses the scale for a throughput of `per` units each second.
    pub fn of(per: u64) -> (k: Scale)
        ensures
            k == Scale::spec_of(per),
            k == Scale::Unit <==> per < 2_048,
            k == Scale::Kilo <==> 2_048 <= per < 2_097_152,
            k == Scale::Mega <==> 2_097_152 <= per < 2_147_483_648,
            k == Scale::Giga <==> 2_147_483_648 <= per,
    {
        if per < MIN_K {
            Scale::Unit
        } else if per < MIN_M {
            Scale::Kilo
        } else if per < MIN_G {
            Scale::Mega
        } else {
            Scale::Giga
        }
    }

    /// The number of units in one scaled unit.
    pub fn factor(&self) -> (f: u64)
        ensures
            f == self.spec_factor(),
    {
        match self {
            Scale::Unit => 1,
            Scale::Kilo => 1_024,
            Scale::Mega => 1_048_576,
            Scale::Giga => 1_073_741_824,
        }
    }

    /// The prefix that the scale puts before the unit's name.
    pub fn prefix(&self) -> (s: &'static str)
        ensures
            s@ == self.spec_prefix(),
    {
        match self {
            Scale::Unit => "",
            Scale::Kilo => "K",
            Scale::Mega => "M",
            Scale::Giga => "G",
        }
    }
}

/// What one run of a benchmark processes each second.
#[derive(Clone, Copy, PartialEq, Eq, Debug, Structural)]
pub enum Throughput {
    Bytes(u64),
    Elements(u64),
}

/// The text of a throughput of `per` units each second. An unscaled value is
/// shown as a whole number, a scaled one with one decimal place.
pub open spec fn throughput_per_text(per: u64, unit: Seq<char>) -> Seq<char> {
    let scale = Scale::spec_of(per);
    let number = if scale == Scale::Unit {
        digits_of(per as nat)
    } else {
        ratio_text(per as nat, scale.spec_factor(), 1)
    };
    number + " "@ + scale.spec_prefix() + unit + "/sec"@
}

/// The text of a throughput; `? ?/sec` stands for one that is not known.
pub open spec fn throughput_text(throughput: Option<Throughput>) -> Seq<char> {
    match throughput {
        Some(Throughput::Bytes(per)) => throughput_per_text(per, "B"@),
        Some(Throughput::Elements(per)) => throughput_per_text(per, "Elem"@),
        None => "? ?/sec"@,
    }
}

/// Formats a throughput of `per` units each second, `unit` being the unit's
/// name.
pub fn throughput_per(per: u64, unit: &str) -> (s: String)
    ensures
        s@ == throughput_per_text(per, unit@),
{
    let scale: Scale = Scale::of(per);
    assert(pow10(1) == 10) by {
        reveal_with_fuel(pow10, 2);
    }
    let mut s: String = match scale {
        Scale::Unit => digits_string(per as u128),
        _ => ratio_string(per as u128, scale.factor() as u128, 1),
    };
    s.append(" ");
    s.append(scale.prefix());
    s.append(unit);
    s.append("/sec");
    s
}

/// Formats a throughput, or the placeholder where there is none.
pub fn throughput(value: Option<Throughput>) -> (s: String)
    ensures
        s@ == throughput_text(value),
{
    match value {
        Some(Throughput::Bytes(per)) => throughput_per(per, "B"),
        Some(Throughput::Elements(per)) => throughput_per(per, "Elem"),
        None => String::from_str("? ?/sec"),
    }
}

} // verus!
