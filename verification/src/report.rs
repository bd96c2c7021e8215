//! The whole report: the comparisons and how they are shown.

use crate::benchmark::Benchmark;
use crate::comparison::{names_of, spread, texts, Comparison, ComparisonView};
use crate::config::{DisplayConfig, RankingConfig};
use crate::decimal::lemma_exceeds_smaller;
use crate::layout::{
    add_name, add_names, baseline_mode_color, basis, benchmark_mode_color, cell, cell_string,
    color_of, column_names, divider_spans, has_throughput, header_spans, report_spans, row_string,
    row_text, rows_one_spans, rows_spans, rule, table_row_spans, table_rows_spans, table_spans,
};
use crate::order::{lemma_perf_order_extremes, lemma_sorted_by, min_picos, name_order, SortKey};
use crate::style::{plain, push_plain, push_span, span_views, Color, Span, SpanView};
use crate::text::{display_width, repeat_char, same_text};
use vstd::prelude::*;

verus! {

/// The comparisons of a report, in the order in which they are shown, and the
/// settings of the report.
#[derive(Debug)]
pub struct Comparisons {
    comps: Vec<Comparison>,
    config: DisplayConfig,
}

/// A report as the contracts see it.
pub struct ComparisonsView {
    pub comps: Seq<ComparisonView>,
    pub config: DisplayConfig,
}

/// The views of a run of comparisons.
pub open spec fn comparison_views(s: Seq<Comparison>) -> Seq<ComparisonView> {
    Seq::new(s.len(), |i: int| s[i]@)
}

/// Whether a comparison stays in a report that drops what lies at or under
/// `threshold`, in thousandths of a percent: whether its biggest difference
/// is larger.
pub open spec fn keeps(threshold: i64) -> spec_fn(ComparisonView) -> bool {
    |c: ComparisonView| spread(c.benchmarks).spec_exceeds(threshold)
}

impl View for Comparisons {
    type V = ComparisonsView;

    closed spec fn view(&self) -> ComparisonsView {
        ComparisonsView { comps: comparison_views(self.comps@), config: self.config }
    }
}

impl Clone for Comparisons {
    fn clone(&self) -> (r: Comparisons)
        ensures
            r@ == self@,
    {
        let mut comps: Vec<Comparison> = Vec::new();
        let mut i: usize = 0;
        while i < self.comps.len()
            invariant
                i <= self.comps.len(),
                comps.len() == i,
                forall|k: int| 0 <= k < i ==> (#[trigger] comps[k])@ == self.comps[k]@,
            decreases self.comps.len() - i,
        {
            comps.push(self.comps[i].clone());
            i += 1;
        }
        assert(comparison_views(comps@) =~= comparison_views(self.comps@));
        Comparisons { comps, config: self.config }
    }
}

impl Comparisons {
    /// A report of the given comparisons.
    pub fn new(comps: Vec<Comparison>, config: DisplayConfig) -> (r: Comparisons)
        ensures
            r@.comps == comparison_views(comps@),
            r@.config == config,
    {
        Comparisons { comps, config }
    }

    /// Whether the report holds no comparison.
    pub fn is_empty(&self) -> (b: bool)
        ensures
            b == (self@.comps.len() == 0),
    {
        self.comps.len() == 0
    }

    /// The number of comparisons.
    pub fn len(&self) -> (n: usize)
        ensures
            n == self@.comps.len(),
    {
        self.comps.len()
    }

    /// The comparison at place `i`.
    pub fn get(&self, i: usize) -> (c: Option<&Comparison>)
        ensures
            c is Some == (i < self@.comps.len()),
            c is Some ==> c->0@ == self@.comps[i as int],
    {
        if i < self.comps.len() {
            Some(&self.comps[i])
        } else {
            None
        }
    }

    /// The settings of the report.
    pub fn config(&self) -> (c: DisplayConfig)
        ensures
            c == self@.config,
    {
        self.config
    }

    /// Drops every comparison whose biggest difference is not larger than
    /// `threshold`, which counts thousandths of a percent. The others stay in
    /// their order.
    pub fn drop_under(&mut self, threshold: i64)
        ensures
            final(self)@.config == old(self)@.config,
            final(self)@.comps == old(self)@.comps.filter(keeps(threshold)),
    {
        let ghost orig = comparison_views(self.comps@);
        let ghost mut done: int = 0;
        let mut i: usize = 0;
        proof {
            assert(orig.take(0) =~= Seq::<ComparisonView>::empty());
            assert(orig.take(0).filter(keeps(threshold)) =~= Seq::<ComparisonView>::empty()) by {
                orig.take(0).lemma_filter_len(keeps(threshold));
            }
            assert(orig.skip(0) =~= orig);
        }
        while i < self.comps.len()
            invariant
                self.config == old(self).config,
                orig == comparison_views(old(self).comps@),
                0 <= done <= orig.len(),
                i + (orig.len() - done) == self.comps.len(),
                i == orig.take(done).filter(keeps(threshold)).len(),
                comparison_views(self.comps@) == orig.take(done).filter(keeps(threshold))
                    + orig.skip(done),
            decreases orig.len() - done,
        {
            let ghost before = comparison_views(self.comps@);
            let ghost kept = orig.take(done).filter(keeps(threshold));
            assert(before[i as int] == orig.skip(done)[0]);
            assert(self.comps[i as int]@ == orig[done]);
            let keep: bool = self.comps[i].biggest_difference().exceeds(threshold);
            proof {
                orig.take(done).lemma_filter_push(orig[done], keeps(threshold));
                assert(orig.take(done + 1) =~= orig.take(done).push(orig[done]));
                assert(keep == keeps(threshold)(orig[done]));
                assert(orig.take(done + 1).filter(keeps(threshold)) == if keep {
                    kept.push(orig[done])
                } else {
                    kept
                });
            }
            if keep {
                i += 1;
                assert(before =~= kept.push(orig[done]) + orig.skip(done + 1));
            } else {
                self.comps.remove(i);
                assert(comparison_views(self.comps@) =~= before.remove(i as int));
                assert(before.remove(i as int) =~= kept + orig.skip(done + 1));
            }
            proof {
                done = done + 1;
            }
        }
        proof {
            assert(orig.take(orig.len() as int) =~= orig);
            assert(comparison_views(self.comps@) =~= orig.filter(keeps(threshold)));
        }
    }

    /// Whether any benchmark of the report has a throughput.
    pub fn throughput_available(&self) -> (r: bool)
        ensures
            r == has_throughput(self@.comps),
    {
        let mut i: usize = 0;
        while i < self.comps.len()
            invariant
                i <= self.comps.len(),
                forall|a: int, b: int|
                    0 <= a < i && 0 <= b < self.comps[a]@.benchmarks.len() ==> !((
                    #[trigger] self.comps[a]@.benchmarks[b]).throughput is Some),
            decreases self.comps.len() - i,
        {
            let comp: &Comparison = &self.comps[i];
            let mut j: usize = 0;
            while j < comp.len()
                invariant
                    i < self.comps.len(),
                    *comp == self.comps[i as int],
                    j <= comp@.benchmarks.len(),
                    forall|b: int|
                        0 <= b < j ==> !((#[trigger] comp@.benchmarks[b]).throughput is Some),
                decreases comp@.benchmarks.len() - j,
            {
                let b: &Benchmark = comp.get_by_cmdline(j).unwrap();
                if b.throughput.is_some() {
                    assert(self@.comps[i as int] == comp@);
                    assert(self@.comps[i as int].benchmarks[j as int].throughput is Some);
                    return true;
                }
                j += 1;
            }
            i += 1;
        }
        assert forall|a: int, b: int|
            0 <= a < self@.comps.len() && 0 <= b < self@.comps[a].benchmarks.len() implies !((
        #[trigger] self@.comps[a].benchmarks[b]).throughput is Some) by {
            assert(self@.comps[a] == self.comps[a]@);
        }
        false
    }

    /// The duration that the durations of `comp` are divided by: that of its
    /// fastest benchmark where benchmarks are ranked, that of its first where
    /// a baseline is.
    pub fn divide_by(&self, comp: &Comparison) -> (d: u64)
        requires
            comp@.benchmarks.len() > 0,
        ensures
            d == basis(self@.config.rank, comp@.benchmarks),
    {
        match self.config.rank {
            RankingConfig::Benchmark => comp.best().unwrap().picos,
            RankingConfig::Baseline => comp.first().unwrap().picos,
        }
    }

    /// The colour of a duration of `comp` where benchmarks are ranked: bold
    /// green for the shortest duration of the comparison, and for it alone.
    pub fn set_colors_benchmark_mode(&self, comp: &Comparison, current: u64) -> (r: Option<
        (Color, bool),
    >)
        requires
            comp@.benchmarks.len() > 0,
        ensures
            r == benchmark_mode_color(comp@.benchmarks, current),
            r == if current == min_picos(comp@.benchmarks) {
                Some((Color::Green, true))
            } else {
                None
            },
    {
        proof {
            lemma_perf_order_extremes(comp@.benchmarks);
        }
        let best: u64 = comp.best().unwrap().picos;
        if best == current {
            Some((Color::Green, true))
        } else {
            None
        }
    }

    /// The colour of a duration of `comp` against the baseline, the benchmark
    /// given first: red where it is slower, green where it is not; none
    /// where it lies less than 3 percent from the baseline, bold from 10
    /// percent.
    pub fn set_colors_baseline_mode(&self, comp: &Comparison, current: u64) -> (r: Option<
        (Color, bool),
    >)
        requires
            comp@.benchmarks.len() > 0,
        ensures
            r == baseline_mode_color(comp@.benchmarks, current),
    {
        let first: u128 = comp.first().unwrap().picos as u128;
        let now: u128 = current as u128;
        let color: Color = if now > first {
            Color::Red
        } else {
            Color::Green
        };
        let gap: u128 = if now > first {
            now - first
        } else {
            first - now
        };
        if 100 * gap < 3 * first {
            None
        } else if 10 * gap < first {
            Some((color, false))
        } else {
            Some((color, true))
        }
    }

    /// The colour of a duration of `comp` under the ranking of the report.
    pub fn set_color(&self, comp: &Comparison, current: u64) -> (r: Option<(Color, bool)>)
        requires
            comp@.benchmarks.len() > 0,
        ensures
            r == color_of(self@.config.rank, comp@.benchmarks, current),
    {
        match self.config.rank {
            RankingConfig::Baseline => self.set_colors_baseline_mode(comp, current),
            RankingConfig::Benchmark => self.set_colors_benchmark_mode(comp, current),
        }
    }

    /// Appends one comparison as a list: its name, a rule as wide as the
    /// name, and a line for each benchmark in the order of names, or a notice
    /// where it has none.
    pub fn rows_one(&self, out: &mut Vec<Span>, comp: &Comparison)
        ensures
            span_views(final(out)@) == span_views(old(out)@) + rows_one_spans(
                self@.config,
                comp@,
            ),
    {
        let ghost start = span_views(out@);
        let ghost base: int = start.len() as int;
        let mut head: String = String::from_str(comp.name());
        head.append("\n");
        push_plain(out, head);
        let mut line: String = repeat_char('-', display_width(comp.name()));
        line.append("\n");
        push_plain(out, line);
        if comp.is_empty() {
            push_plain(out, String::from_str("NOTHING TO SHOW\n"));
            assert(span_views(out@) =~= start + rows_one_spans(self@.config, comp@));
            return ;
        }
        let d: u64 = self.divide_by(comp);
        let n: usize = comp.len();
        let ghost by_name = name_order(comp@.benchmarks);
        let ghost format = self@.config.value_format;
        proof {
            lemma_sorted_by(SortKey::Name, comp@.benchmarks);
        }
        let mut k: usize = 0;
        while k < n
            invariant
                n == comp@.benchmarks.len(),
                by_name == name_order(comp@.benchmarks),
                by_name.len() == n,
                format == self@.config.value_format,
                base == start.len(),
                d == basis(self@.config.rank, comp@.benchmarks),
                k <= n,
                span_views(out@).len() == base + 2 + k,
                span_views(out@).take(base) == start,
                span_views(out@)[base] == plain(comp@.name + "\n"@),
                span_views(out@)[base + 1] == plain(rule(comp@.name) + "\n"@),
                forall|i: int|
                    0 <= i < k ==> #[trigger] span_views(out@)[base + 2 + i] == plain(
                        row_text(format, d, by_name[i]),
                    ),
            decreases n - k,
        {
            let ghost prev = span_views(out@);
            let b: &Benchmark = comp.get_by_name_order(k).unwrap();
            push_plain(out, row_string(self.config.value_format, d, b));
            proof {
                assert(span_views(out@).take(base) =~= prev.take(base));
                assert forall|i: int| 0 <= i < k + 1 implies #[trigger] span_views(out@)[base + 2 + i] == plain(row_text(format, d, by_name[i])) by {
                    if i < k {
                        assert(span_views(out@)[base + 2 + i] == prev[base + 2 + i]);
                    }
                }
            }
            k += 1;
        }
        proof {
            let want = start + rows_one_spans(self@.config, comp@);
            assert(span_views(out@).len() == want.len());
            assert forall|i: int| 0 <= i < want.len() implies span_views(out@)[i] == want[i] by {
                if i < base {
                    assert(span_views(out@).take(base)[i] == start[i]);
                } else if i >= base + 2 {
                    let j = i - base - 2;
                    assert(span_views(out@)[base + 2 + j] == plain(
                        row_text(format, d, by_name[j]),
                    ));
                }
            }
            assert(span_views(out@) =~= want);
        }
    }

    /// Appends the comparisons as lists, with an empty line between two of
    /// them.
    pub fn rows(&self, out: &mut Vec<Span>)
        ensures
            span_views(final(out)@) == span_views(old(out)@) + rows_spans(
                self@.config,
                self@.comps,
            ),
    {
        let ghost start = span_views(out@);
        let ghost comps = self@.comps;
        let mut i: usize = 0;
        assert(span_views(out@) =~= start + rows_spans(self@.config, comps.take(0)));
        while i < self.comps.len()
            invariant
                comps == self@.comps,
                comps.len() == self.comps.len(),
                i <= self.comps.len(),
                span_views(out@) == start + rows_spans(self@.config, comps.take(i as int)),
            decreases self.comps.len() - i,
        {
            let ghost prev = rows_spans(self@.config, comps.take(i as int));
            if i > 0 {
                push_plain(out, String::from_str("\n"));
            }
            self.rows_one(out, &self.comps[i]);
            proof {
                assert(comps.take(i + 1).drop_last() =~= comps.take(i as int));
                assert(comps.take(i + 1).last() == self.comps[i as int]@);
                let one = rows_one_spans(self@.config, self.comps[i as int]@);
                if i == 0 {
                    assert(prev =~= Seq::<SpanView>::empty());
                    assert(span_views(out@) =~= start + one);
                } else {
                    assert(span_views(out@) =~= start + (prev.push(plain("\n"@)) + one));
                }
            }
            i += 1;
        }
        assert(comps.take(comps.len() as int) =~= comps);
    }

    /// The names of the columns of the table: those of all benchmarks, each
    /// once, in the order in which they are first met.
    pub fn column_list(&self) -> (columns: Vec<String>)
        ensures
            texts(columns@) == column_names(self@.comps),
    {
        let ghost comps = self@.comps;
        let mut columns: Vec<String> = Vec::new();
        let mut i: usize = 0;
        assert(texts(columns@) =~= column_names(comps.take(0)));
        while i < self.comps.len()
            invariant
                comps == self@.comps,
                comps.len() == self.comps.len(),
                i <= self.comps.len(),
                texts(columns@) == column_names(comps.take(i as int)),
            decreases self.comps.len() - i,
        {
            let comp: &Comparison = &self.comps[i];
            let ghost names = names_of(comp@.benchmarks);
            let ghost before = column_names(comps.take(i as int));
            let mut j: usize = 0;
            assert(names.take(0) =~= Seq::<Seq<char>>::empty());
            while j < comp.len()
                invariant
                    names == names_of(comp@.benchmarks),
                    j <= comp@.benchmarks.len(),
                    texts(columns@) == add_names(before, names.take(j as int)),
                decreases comp@.benchmarks.len() - j,
            {
                let b: &Benchmark = comp.get_by_cmdline(j).unwrap();
                let ghost prev = texts(columns@);
                if !has_name(&columns, b.name.as_str()) {
                    columns.push(b.name.clone());
                    assert(texts(columns@) =~= prev.push(b.name@));
                }
                proof {
                    assert(names.take(j + 1).drop_last() =~= names.take(j as int));
                    assert(names.take(j + 1).last() == b.name@);
                    assert(texts(columns@) == add_name(prev, b.name@));
                }
                j += 1;
            }
            proof {
                assert(names.take(names.len() as int) =~= names);
                assert(comps.take(i + 1).drop_last() =~= comps.take(i as int));
                assert(comps.take(i + 1).last() == comp@);
            }
            i += 1;
        }
        assert(comps.take(comps.len() as int) =~= comps);
        columns
    }

    /// Appends the line of one comparison in a table: its name and a cell for
    /// each column. A comparison without benchmarks has no line.
    pub fn table_row(
        &self,
        out: &mut Vec<Span>,
        wide: bool,
        comp: &Comparison,
        columns: &Vec<String>,
    )
        ensures
            span_views(final(out)@) == span_views(old(out)@) + table_row_spans(
                self@.config,
                wide,
                comp@,
                texts(columns@),
            ),
    {
        let ghost start = span_views(out@);
        let ghost base: int = start.len() as int;
        let ghost names = texts(columns@);
        if comp.is_empty() {
            assert(span_views(out@) =~= start + table_row_spans(self@.config, wide, comp@, names));
            return ;
        }
        push_plain(out, String::from_str(comp.name()));
        let d: u64 = self.divide_by(comp);
        let mut k: usize = 0;
        while k < columns.len()
            invariant
                comp@.benchmarks.len() > 0,
                names == texts(columns@),
                base == start.len(),
                d == basis(self@.config.rank, comp@.benchmarks),
                k <= columns.len(),
                span_views(out@).len() == base + 1 + k,
                span_views(out@).take(base) == start,
                span_views(out@)[base] == plain(comp@.name),
                forall|i: int|
                    0 <= i < k ==> #[trigger] span_views(out@)[base + 1 + i] == cell(
                        self@.config,
                        wide,
                        comp@,
                        names[i],
                    ),
            decreases columns.len() - k,
        {
            let ghost prev = span_views(out@);
            match comp.get(columns[k].as_str()) {
                None => {
                    push_plain(out, String::from_str("\t"));
                },
                Some(b) => {
                    let color: Option<(Color, bool)> = self.set_color(comp, b.picos);
                    let text: String = cell_string(self.config.value_format, wide, d, b);
                    push_span(out, text, color);
                },
            }
            proof {
                assert(span_views(out@).take(base) =~= prev.take(base));
                assert forall|i: int| 0 <= i < k + 1 implies #[trigger] span_views(out@)[base + 1
                    + i] == cell(self@.config, wide, comp@, names[i]) by {
                    if i < k {
                        assert(span_views(out@)[base + 1 + i] == prev[base + 1 + i]);
                    }
                }
            }
            k += 1;
        }
        let ghost filled = span_views(out@);
        push_plain(out, String::from_str("\n"));
        proof {
            let want = start + table_row_spans(self@.config, wide, comp@, names);
            assert(span_views(out@).len() == want.len());
            assert forall|i: int| 0 <= i < want.len() implies span_views(out@)[i] == want[i] by {
                if i < base {
                    assert(filled.take(base)[i] == start[i]);
                } else if base < i < base + 1 + names.len() {
                    let j = i - base - 1;
                    assert(filled[base + 1 + j] == cell(self@.config, wide, comp@, names[j]));
                }
            }
            assert(span_views(out@) =~= want);
        }
    }

    /// Appends the comparisons as one table: the headings, a rule under each,
    /// and a line for each comparison that has benchmarks.
    pub fn columns(&self, out: &mut Vec<Span>)
        ensures
            span_views(final(out)@) == span_views(old(out)@) + table_spans(
                self@.config,
                self@.comps,
            ),
    {
        let ghost start = span_views(out@);
        let ghost comps = self@.comps;
        let columns: Vec<String> = self.column_list();
        let ghost names = texts(columns@);
        push_header(out, &columns);
        push_divider(out, &columns);
        let wide: bool = self.throughput_available();
        let ghost head = start + header_spans(names) + divider_spans(names);
        let mut i: usize = 0;
        assert(span_views(out@) =~= head + table_rows_spans(
            self@.config,
            wide,
            comps.take(0),
            names,
        ));
        while i < self.comps.len()
            invariant
                comps == self@.comps,
                comps.len() == self.comps.len(),
                names == texts(columns@),
                i <= self.comps.len(),
                span_views(out@) == head + table_rows_spans(
                    self@.config,
                    wide,
                    comps.take(i as int),
                    names,
                ),
            decreases self.comps.len() - i,
        {
            let ghost prev = table_rows_spans(self@.config, wide, comps.take(i as int), names);
            self.table_row(out, wide, &self.comps[i], &columns);
            proof {
                assert(comps.take(i + 1).drop_last() =~= comps.take(i as int));
                assert(comps.take(i + 1).last() == self.comps[i as int]@);
                assert(span_views(out@) =~= head + (prev + table_row_spans(
                    self@.config,
                    wide,
                    self.comps[i as int]@,
                    names,
                )));
            }
            i += 1;
        }
        proof {
            assert(comps.take(comps.len() as int) =~= comps);
            assert(span_views(out@) =~= start + table_spans(self@.config, comps));
        }
    }

    /// The whole report as pieces of text to be written one after the other:
    /// a list for each comparison, or one table of them all, as the settings
    /// say.
    pub fn write(&self) -> (out: Vec<Span>)
        ensures
            span_views(out@) == report_spans(self@.config, self@.comps),
    {
        let mut out: Vec<Span> = Vec::new();
        let ghost start = span_views(out@);
        if self.config.list {
            self.rows(&mut out);
        } else {
            self.columns(&mut out);
        }
        assert(span_views(out@) =~= report_spans(self@.config, self@.comps)) by {
            assert(start =~= Seq::<SpanView>::empty());
        }
        out
    }
}

/// Whether `name` is among the columns.
pub fn has_name(columns: &Vec<String>, name: &str) -> (r: bool)
    ensures
        r == texts(columns@).contains(name@),
{
    let mut i: usize = 0;
    while i < columns.len()
        invariant
            i <= columns.len(),
            forall|k: int| 0 <= k < i ==> texts(columns@)[k] != name@,
        decreases columns.len() - i,
    {
        if same_text(columns[i].as_str(), name) {
            assert(texts(columns@)[i as int] == name@);
            return true;
        }
        i += 1;
    }
    false
}

/// Appends the first line of a table: `group` and the names of the columns.
pub fn push_header(out: &mut Vec<Span>, columns: &Vec<String>)
    ensures
        span_views(final(out)@) == span_views(old(out)@) + header_spans(texts(columns@)),
{
    let ghost start = span_views(out@);
    let ghost base: int = start.len() as int;
    let ghost names = texts(columns@);
    push_plain(out, String::from_str("group"));
    let mut k: usize = 0;
    while k < columns.len()
        invariant
            names == texts(columns@),
            base == start.len(),
            k <= columns.len(),
            span_views(out@).len() == base + 1 + k,
            span_views(out@).take(base) == start,
            span_views(out@)[base] == plain("group"@),
            forall|i: int|
                0 <= i < k ==> #[trigger] span_views(out@)[base + 1 + i] == plain(
                    "\t  "@ + names[i],
                ),
        decreases columns.len() - k,
    {
        let ghost prev = span_views(out@);
        let mut text: String = String::from_str("\t  ");
        text.append(columns[k].as_str());
        push_plain(out, text);
        proof {
            assert(span_views(out@).take(base) =~= prev.take(base));
            assert forall|i: int| 0 <= i < k + 1 implies #[trigger] span_views(out@)[base + 1 + i]
                == plain("\t  "@ + names[i]) by {
                if i < k {
                    assert(span_views(out@)[base + 1 + i] == prev[base + 1 + i]);
                }
            }
        }
        k += 1;
    }
    let ghost filled = span_views(out@);
    push_plain(out, String::from_str("\n"));
    proof {
        let want = start + header_spans(names);
        assert(span_views(out@).len() == want.len());
        assert forall|i: int| 0 <= i < want.len() implies span_views(out@)[i] == want[i] by {
            if i < base {
                assert(filled.take(base)[i] == start[i]);
            } else if base < i < base + 1 + names.len() {
                let j = i - base - 1;
                assert(filled[base + 1 + j] == plain("\t  "@ + names[j]));
            }
        }
        assert(span_views(out@) =~= want);
    }
}

/// Appends the second line of a table: under each heading a rule as wide as
/// the heading.
pub fn push_divider(out: &mut Vec<Span>, columns: &Vec<String>)
    ensures
        span_views(final(out)@) == span_views(old(out)@) + divider_spans(texts(columns@)),
{
    let ghost start = span_views(out@);
    let ghost base: int = start.len() as int;
    let ghost names = texts(columns@);
    push_plain(out, repeat_char('-', display_width("group")));
    let mut k: usize = 0;
    while k < columns.len()
        invariant
            names == texts(columns@),
            base == start.len(),
            k <= columns.len(),
            span_views(out@).len() == base + 1 + k,
            span_views(out@).take(base) == start,
            span_views(out@)[base] == plain(rule("group"@)),
            forall|i: int|
                0 <= i < k ==> #[trigger] span_views(out@)[base + 1 + i] == plain(
                    "\t  "@ + rule(names[i]),
                ),
        decreases columns.len() - k,
    {
        let ghost prev = span_views(out@);
        let mut text: String = String::from_str("\t  ");
        text.append(repeat_char('-', display_width(columns[k].as_str())).as_str());
        push_plain(out, text);
        proof {
            assert(span_views(out@).take(base) =~= prev.take(base));
            assert forall|i: int| 0 <= i < k + 1 implies #[trigger] span_views(out@)[base + 1 + i]
                == plain("\t  "@ + rule(names[i])) by {
                if i < k {
                    assert(span_views(out@)[base + 1 + i] == prev[base + 1 + i]);
                }
            }
        }
        k += 1;
    }
    let ghost filled = span_views(out@);
    push_plain(out, String::from_str("\n"));
    proof {
        let want = start + divider_spans(names);
        assert(span_views(out@).len() == want.len());
        assert forall|i: int| 0 <= i < want.len() implies span_views(out@)[i] == want[i] by {
            if i < base {
                assert(filled.take(base)[i] == start[i]);
            } else if base < i < base + 1 + names.len() {
                let j = i - base - 1;
                assert(filled[base + 1 + j] == plain("\t  "@ + rule(names[j])));
            }
        }
        assert(span_views(out@) =~= want);
    }
}

/// What `drop_under` leaves: the places, in rising order, of the comparisons
/// whose biggest difference is larger than the threshold. So the comparisons
/// that stay are exactly those, and they stay in their order.
pub proof fn lemma_drop_under_survivors(comps: Seq<ComparisonView>, threshold: i64) -> (places:
    Seq<int>)
    ensures
        places.len() == comps.filter(keeps(threshold)).len(),
        forall|k: int|
            0 <= k < places.len() ==> 0 <= #[trigger] places[k] < comps.len() && comps.filter(
                keeps(threshold),
            )[k] == comps[places[k]],
        forall|a: int, b: int| 0 <= a < b < places.len() ==> places[a] < places[b],
        forall|i: int|
            0 <= i < comps.len() ==> (places.contains(i) <==> spread(
                (#[trigger] comps[i]).benchmarks,
            ).spec_exceeds(threshold)),
    decreases comps.len(),
{
    reveal(Seq::filter);
    if comps.len() == 0 {
        Seq::empty()
    } else {
        let rest = comps.drop_last();
        let last = comps.len() - 1;
        let inner = lemma_drop_under_survivors(rest, threshold);
        let places = if keeps(threshold)(comps.last()) {
            inner.push(last)
        } else {
            inner
        };
        assert forall|i: int| 0 <= i < comps.len() implies (places.contains(i) <==> spread(
            (#[trigger] comps[i]).benchmarks,
        ).spec_exceeds(threshold)) by {
            if i < last {
                assert(rest[i] == comps[i]);
                if inner.contains(i) {
                    let k = choose|k: int| 0 <= k < inner.len() && inner[k] == i;
                    assert(places[k] == i);
                }
                if places.contains(i) {
                    let k = choose|k: int| 0 <= k < places.len() && places[k] == i;
                    assert(inner[k] == i);
                }
            } else {
                if keeps(threshold)(comps.last()) {
                    assert(places[places.len() - 1] == i);
                }
                if places.contains(i) {
                    let k = choose|k: int| 0 <= k < places.len() && places[k] == i;
                    assert(k == places.len() - 1 && keeps(threshold)(comps.last()));
                }
            }
        }
        places
    }
}

/// Dropping once more, under the same threshold or a smaller one, changes
/// nothing.
pub proof fn lemma_drop_under_again(comps: Seq<ComparisonView>, first: i64, second: i64)
    requires
        second <= first,
    ensures
        comps.filter(keeps(first)).filter(keeps(second)) == comps.filter(keeps(first)),
{
    let kept = comps.filter(keeps(first));
    assert forall|i: int| 0 <= i < kept.len() implies keeps(second)(#[trigger] kept[i]) by {
        comps.lemma_filter_pred(keeps(first), i);
        lemma_exceeds_smaller(spread(kept[i].benchmarks), first, second);
    }
    lemma_filter_keeps_all(kept, keeps(second));
}

/// A run whose members all pass a test is left whole by it.
proof fn lemma_filter_keeps_all(s: Seq<ComparisonView>, pred: spec_fn(ComparisonView) -> bool)
    requires
        forall|i: int| 0 <= i < s.len() ==> pred(#[trigger] s[i]),
    ensures
        s.filter(pred) == s,
    decreases s.len(),
{
    reveal(Seq::filter);
    if s.len() > 0 {
        assert forall|i: int| 0 <= i < s.drop_last().len() implies pred(
            #[trigger] s.drop_last()[i],
        ) by {
            assert(s.drop_last()[i] == s[i]);
        }
        lemma_filter_keeps_all(s.drop_last(), pred);
        assert(pred(s[s.len() - 1]));
        assert(s.drop_last().push(s.last()) =~= s);
    }
}

} // verus!
