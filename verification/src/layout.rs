//! What a report looks like: its lines, cells and colours, as functions of
//! the comparisons.

use crate::benchmark::{Benchmark, BenchmarkView};
use crate::comparison::{found, names_of, ComparisonView};
use crate::config::{DisplayConfig, RankingConfig, ValueFormat};
use crate::decimal::{pow10, ratio_string, ratio_text};
use crate::order::{lemma_perf_order_extremes, min_picos, name_order, perf_order};
use crate::style::{plain, Color, SpanView};
use crate::text::{display_columns, pad_left, padded_left, repeated};
use crate::units::{throughput, throughput_text, time, time_text};
use vstd::prelude::*;

verus! {

/// The duration that the durations of a comparison are divided by: that of
/// the fastest benchmark, or that of the benchmark given first.
pub open spec fn basis(rank: RankingConfig, benchmarks: Seq<BenchmarkView>) -> u64
    recommends
        benchmarks.len() > 0,
{
    match rank {
        RankingConfig::Benchmark => perf_order(benchmarks).first().picos,
        RankingConfig::Baseline => benchmarks.first().picos,
    }
}

/// The colour of a duration where the fastest benchmark is the measure: bold
/// green for a duration equal to the fastest, none for any other.
pub open spec fn benchmark_mode_color(benchmarks: Seq<BenchmarkView>, current: u64) -> Option<
    (Color, bool),
>
    recommends
        benchmarks.len() > 0,
{
    if perf_order(benchmarks).first().picos == current {
        Some((Color::Green, true))
    } else {
        None
    }
}

/// The colour for a duration that lies `gap` away from a baseline of `first`:
/// none below 3 percent of the baseline, plain from there, bold from 10
/// percent.
pub open spec fn shade(color: Color, gap: nat, first: nat) -> Option<(Color, bool)> {
    if 100 * gap < 3 * first {
        None
    } else if 10 * gap < first {
        Some((color, false))
    } else {
        Some((color, true))
    }
}

/// The colour of a duration where the benchmark given first is the measure:
/// red for a slower one, green for one that is no slower, shaded by how far it
/// lies from the baseline.
pub open spec fn baseline_mode_color(benchmarks: Seq<BenchmarkView>, current: u64) -> Option<
    (Color, bool),
>
    recommends
        benchmarks.len() > 0,
{
    let first = benchmarks.first().picos;
    if current > first {
        shade(Color::Red, (current - first) as nat, first as nat)
    } else {
        shade(Color::Green, (first - current) as nat, first as nat)
    }
}

/// The colour of a duration under the given ranking.
pub open spec fn color_of(rank: RankingConfig, benchmarks: Seq<BenchmarkView>, current: u64)
    -> Option<(Color, bool)>
    recommends
        benchmarks.len() > 0,
{
    match rank {
        RankingConfig::Baseline => baseline_mode_color(benchmarks, current),
        RankingConfig::Benchmark => benchmark_mode_color(benchmarks, current),
    }
}

/// The text of a duration relative to `basis`, with two decimal places and
/// right-aligned in `width` characters: a multiple of the basis, or a
/// percentage of it with `%` behind the number.
pub open spec fn value_text(format: ValueFormat, picos: u64, basis: u64, width: nat) -> Seq<char> {
    match format {
        ValueFormat::Real => padded_left(ratio_text(picos as nat, basis as nat, 2), width),
        ValueFormat::Percent => padded_left(
            ratio_text((picos * 100) as nat, basis as nat, 2),
            width,
        ) + "%"@,
    }
}

/// The line of one benchmark in a list.
pub open spec fn row_text(format: ValueFormat, basis: u64, b: BenchmarkView) -> Seq<char> {
    b.name + "\t"@ + value_text(format, b.picos, basis, 7) + "\t"@ + padded_left(
        time_text(b.picos, b.stddev),
        15,
    ) + "\t"@ + padded_left(throughput_text(b.throughput), 12) + "\n"@
}

/// The cell of one benchmark in a table; `wide` says whether the table shows
/// throughputs.
pub open spec fn cell_text(format: ValueFormat, wide: bool, basis: u64, b: BenchmarkView) -> Seq<
    char,
> {
    let narrow = "\t  "@ + value_text(format, b.picos, basis, 8) + " "@ + padded_left(
        time_text(b.picos, b.stddev),
        14,
    );
    if wide {
        narrow + " "@ + padded_left(throughput_text(b.throughput), 14)
    } else {
        narrow
    }
}

/// The rule under a heading: as many dashes as the heading has columns.
pub open spec fn rule(heading: Seq<char>) -> Seq<char> {
    repeated('-', display_columns(heading))
}

/// One comparison as a list: its name, a rule, and a line for each benchmark
/// in the order of names.
pub open spec fn rows_one_spans(config: DisplayConfig, c: ComparisonView) -> Seq<SpanView> {
    let head = seq![plain(c.name + "\n"@), plain(rule(c.name) + "\n"@)];
    if c.benchmarks.len() == 0 {
        head.push(plain("NOTHING TO SHOW\n"@))
    } else {
        let by_name = name_order(c.benchmarks);
        let d = basis(config.rank, c.benchmarks);
        head + Seq::new(by_name.len(), |i: int| plain(row_text(config.value_format, d, by_name[i])))
    }
}

/// The comparisons as lists, one after the other, with an empty line between
/// two of them.
pub open spec fn rows_spans(config: DisplayConfig, comps: Seq<ComparisonView>) -> Seq<SpanView>
    decreases comps.len(),
{
    if comps.len() == 0 {
        Seq::empty()
    } else if comps.len() == 1 {
        rows_one_spans(config, comps.last())
    } else {
        rows_spans(config, comps.drop_last()).push(plain("\n"@)) + rows_one_spans(
            config,
            comps.last(),
        )
    }
}

/// The columns with `name` among them: it is added at the end unless it is
/// there already.
pub open spec fn add_name(columns: Seq<Seq<char>>, name: Seq<char>) -> Seq<Seq<char>> {
    if columns.contains(name) {
        columns
    } else {
        columns.push(name)
    }
}

/// The columns with each of `names` among them, added in their order.
pub open spec fn add_names(columns: Seq<Seq<char>>, names: Seq<Seq<char>>) -> Seq<Seq<char>>
    decreases names.len(),
{
    if names.len() == 0 {
        columns
    } else {
        add_name(add_names(columns, names.drop_last()), names.last())
    }
}

/// The columns of a table: the names of all benchmarks, each once, in the
/// order in which they are first met when the comparisons are read one after
/// the other, each in the order in which its benchmarks were given.
pub open spec fn column_names(comps: Seq<ComparisonView>) -> Seq<Seq<char>>
    decreases comps.len(),
{
    if comps.len() == 0 {
        Seq::empty()
    } else {
        add_names(column_names(comps.drop_last()), names_of(comps.last().benchmarks))
    }
}

/// Whether any benchmark of any comparison has a throughput.
pub open spec fn has_throughput(comps: Seq<ComparisonView>) -> bool {
    exists|i: int, j: int|
        0 <= i < comps.len() && 0 <= j < comps[i].benchmarks.len()
            && (#[trigger] comps[i].benchmarks[j]).throughput is Some
}

/// The first line of a table: `group` and the names of the columns.
pub open spec fn header_spans(columns: Seq<Seq<char>>) -> Seq<SpanView> {
    seq![plain("group"@)] + Seq::new(columns.len(), |i: int| plain("\t  "@ + columns[i])).push(
        plain("\n"@),
    )
}

/// The second line of a table: a rule under each heading.
pub open spec fn divider_spans(columns: Seq<Seq<char>>) -> Seq<SpanView> {
    seq![plain(rule("group"@))] + Seq::new(
        columns.len(),
        |i: int| plain("\t  "@ + rule(columns[i])),
    ).push(plain("\n"@))
}

/// The cell of a comparison under the column `name`: a lone tab where the
/// comparison has no benchmark of that name, else the benchmark's figures in
/// the colour of its duration.
pub open spec fn cell(config: DisplayConfig, wide: bool, c: ComparisonView, name: Seq<char>)
    -> SpanView {
    match found(c.benchmarks, name) {
        None => plain("\t"@),
        Some(b) => SpanView {
            text: cell_text(config.value_format, wide, basis(config.rank, c.benchmarks), b),
            color: color_of(config.rank, c.benchmarks, b.picos),
        },
    }
}

/// The line of one comparison in a table. A comparison without benchmarks has
/// no line.
pub open spec fn table_row_spans(
    config: DisplayConfig,
    wide: bool,
    c: ComparisonView,
    columns: Seq<Seq<char>>,
) -> Seq<SpanView> {
    if c.benchmarks.len() == 0 {
        Seq::empty()
    } else {
        seq![plain(c.name)] + Seq::new(columns.len(), |i: int| cell(config, wide, c, columns[i]))
            .push(plain("\n"@))
    }
}

/// The lines of the comparisons in a table, one after the other.
pub open spec fn table_rows_spans(
    config: DisplayConfig,
    wide: bool,
    comps: Seq<ComparisonView>,
    columns: Seq<Seq<char>>,
) -> Seq<SpanView>
    decreases comps.len(),
{
    if comps.len() == 0 {
        Seq::empty()
    } else {
        table_rows_spans(config, wide, comps.drop_last(), columns) + table_row_spans(
            config,
            wide,
            comps.last(),
            columns,
        )
    }
}

/// The comparisons as one table: the headings, the rules, and a line for each
/// comparison that has benchmarks. Every cell shows a throughput if any
/// benchmark of the report has one.
pub open spec fn table_spans(config: DisplayConfig, comps: Seq<ComparisonView>) -> Seq<SpanView> {
    let columns = column_names(comps);
    header_spans(columns) + divider_spans(columns) + table_rows_spans(
        config,
        has_throughput(comps),
        comps,
        columns,
    )
}

/// The whole report.
pub open spec fn report_spans(config: DisplayConfig, comps: Seq<ComparisonView>) -> Seq<SpanView> {
    if config.list {
        rows_spans(config, comps)
    } else {
        table_spans(config, comps)
    }
}

/// Formats a duration relative to `basis`, right-aligned in `width`
/// characters.
pub fn value_string(format: ValueFormat, picos: u64, basis: u64, width: usize) -> (s: String)
    ensures
        s@ == value_text(format, picos, basis, width as nat),
{
    assert(pow10(2) == 100) by {
        reveal_with_fuel(pow10, 3);
    }
    match format {
        ValueFormat::Real => {
            let number: String = ratio_string(picos as u128, basis as u128, 2);
            pad_left(number.as_str(), width)
        },
        ValueFormat::Percent => {
            let number: String = ratio_string((picos as u128) * 100, basis as u128, 2);
            let mut s: String = pad_left(number.as_str(), width);
            s.append("%");
            s
        },
    }
}

/// Formats the line of one benchmark in a list.
pub fn row_string(format: ValueFormat, basis: u64, b: &Benchmark) -> (s: String)
    ensures
        s@ == row_text(format, basis, b@),
{
    let mut s: String = b.name.clone();
    s.append("\t");
    s.append(value_string(format, b.picos, basis, 7).as_str());
    s.append("\t");
    s.append(pad_left(time(b.picos, b.stddev).as_str(), 15).as_str());
    s.append("\t");
    s.append(pad_left(throughput(b.throughput).as_str(), 12).as_str());
    s.append("\n");
    s
}

/// Formats the cell of one benchmark in a table.
pub fn cell_string(format: ValueFormat, wide: bool, basis: u64, b: &Benchmark) -> (s: String)
    ensures
        s@ == cell_text(format, wide, basis, b@),
{
    let mut s: String = String::from_str("\t  ");
    s.append(value_string(format, b.picos, basis, 8).as_str());
    s.append(" ");
    s.append(pad_left(time(b.picos, b.stddev).as_str(), 14).as_str());
    if wide {
        s.append(" ");
        s.append(pad_left(throughput(b.throughput).as_str(), 14).as_str());
    }
    s
}

/// Where the fastest benchmark is the measure, a duration is coloured if and
/// only if it is the shortest of the comparison; so every benchmark that is
/// as fast as the fastest is coloured, and no other.
pub proof fn lemma_benchmark_mode_color(benchmarks: Seq<BenchmarkView>, current: u64)
    requires
        benchmarks.len() > 0,
    ensures
        benchmark_mode_color(benchmarks, current) == if current == min_picos(benchmarks) {
            Some((Color::Green, true))
        } else {
            None
        },
{
    lemma_perf_order_extremes(benchmarks);
}

/// Adding names keeps the columns that were there, in their places, adds
/// each new name once, and nothing else.
pub proof fn lemma_add_names(columns: Seq<Seq<char>>, names: Seq<Seq<char>>)
    requires
        columns.no_duplicates(),
    ensures
        add_names(columns, names).no_duplicates(),
        columns.len() <= add_names(columns, names).len(),
        add_names(columns, names).take(columns.len() as int) == columns,
        forall|x: Seq<char>|
            add_names(columns, names).contains(x) <==> columns.contains(x) || names.contains(x),
    decreases names.len(),
{
    let r = add_names(columns, names);
    if names.len() == 0 {
        assert(r.take(columns.len() as int) =~= columns);
    } else {
        let rest = names.drop_last();
        let inner = add_names(columns, rest);
        lemma_add_names(columns, rest);
        assert(r.take(columns.len() as int) =~= inner.take(columns.len() as int));
        assert forall|x: Seq<char>| r.contains(x) <==> columns.contains(x) || names.contains(
            x,
        ) by {
            if names.contains(x) {
                let k = choose|k: int| 0 <= k < names.len() && names[k] == x;
                if k < rest.len() {
                    assert(rest[k] == x);
                }
            }
            if rest.contains(x) {
                let k = choose|k: int| 0 <= k < rest.len() && rest[k] == x;
                assert(names[k] == x);
            }
            assert(names[names.len() - 1] == names.last());
            if inner.contains(x) {
                let k = choose|k: int| 0 <= k < inner.len() && inner[k] == x;
                assert(r[k] == x);
            }
            if r.contains(x) && x != names.last() {
                let k = choose|k: int| 0 <= k < r.len() && r[k] == x;
                assert(inner[k] == x);
            }
            if x == names.last() && !inner.contains(x) {
                assert(r[r.len() - 1] == x);
            }
        }
    }
}

/// The columns of a table are the names of the benchmarks of the
/// comparisons: each name is a column, each column is such a name, and no
/// column comes twice.
pub proof fn lemma_column_names(comps: Seq<ComparisonView>)
    ensures
        column_names(comps).no_duplicates(),
        forall|x: Seq<char>|
            column_names(comps).contains(x) <==> exists|i: int|
                0 <= i < comps.len() && names_of((#[trigger] comps[i]).benchmarks).contains(x),
    decreases comps.len(),
{
    if comps.len() > 0 {
        let rest = comps.drop_last();
        let last = names_of(comps.last().benchmarks);
        lemma_column_names(rest);
        lemma_add_names(column_names(rest), last);
        assert forall|x: Seq<char>|
            column_names(comps).contains(x) <==> exists|i: int|
                0 <= i < comps.len() && names_of((#[trigger] comps[i]).benchmarks).contains(
                    x,
                ) by {
            if column_names(rest).contains(x) {
                let i = choose|i: int|
                    0 <= i < rest.len() && names_of((#[trigger] rest[i]).benchmarks).contains(x);
                assert(comps[i] == rest[i]);
            }
            if last.contains(x) {
                assert(names_of(comps[comps.len() - 1].benchmarks).contains(x));
            }
            if exists|i: int|
                0 <= i < comps.len() && names_of((#[trigger] comps[i]).benchmarks).contains(x) {
                let i = choose|i: int|
                    0 <= i < comps.len() && names_of((#[trigger] comps[i]).benchmarks).contains(x);
                if i < rest.len() {
                    assert(rest[i] == comps[i]);
                }
            }
        }
    }
}

} // verus!
