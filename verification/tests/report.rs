use bench_report::benchmark::Benchmark;
use bench_report::comparison::Comparison;
use bench_report::config::{DisplayConfig, RankingConfig, ValueFormat};
use bench_report::layout::{cell_string, row_string, value_string};
use bench_report::report::{has_name, Comparisons};
use bench_report::style::{plain_text, Color, Span};
use bench_report::units::Throughput;

fn bench(name: &str, nanos: u64) -> Benchmark {
    Benchmark { name: name.to_string(), picos: nanos * 1_000, stddev: None, throughput: None }
}

fn config(list: bool, rank: RankingConfig, value_format: ValueFormat) -> DisplayConfig {
    DisplayConfig { list, rank, value_format }
}

fn texts(spans: &[Span]) -> Vec<String> {
    spans.iter().map(|s| s.text.clone()).collect()
}

fn colors(spans: &[Span]) -> Vec<Option<(Color, bool)>> {
    spans.iter().map(|s| s.color).collect()
}

fn names_in(report: &Comparisons) -> Vec<String> {
    let mut names: Vec<String> = Vec::new();
    for i in 0..report.len() {
        names.push(report.get(i).unwrap().name().to_string());
    }
    names
}

#[test]
fn report_keeps_comparisons_and_settings() {
    let cfg = config(true, RankingConfig::Baseline, ValueFormat::Percent);
    let empty = Comparisons::new(vec![], cfg);
    assert!(empty.is_empty());
    assert_eq!(empty.len(), 0);
    assert!(empty.get(0).is_none());
    assert_eq!(empty.config(), cfg);
    let two = Comparisons::new(
        vec![Comparison::new("a", vec![]), Comparison::new("g/b", vec![bench("x", 1)])],
        cfg,
    );
    assert!(!two.is_empty());
    assert_eq!(two.len(), 2);
    assert_eq!(names_in(&two), vec!["a".to_string(), "b".to_string()]);
    assert!(two.get(2).is_none());
}

#[test]
fn drop_under_removes_what_does_not_exceed_the_threshold() {
    let cfg = config(true, RankingConfig::Benchmark, ValueFormat::Real);
    let mut report = Comparisons::new(
        vec![
            Comparison::new("single", vec![bench("x", 100)]),
            Comparison::new("double", vec![bench("x", 100), bench("y", 50)]),
            Comparison::new("close", vec![bench("x", 100), bench("y", 105)]),
            Comparison::new("empty", vec![]),
            Comparison::new("half", vec![bench("x", 150), bench("y", 100)]),
            Comparison::new("closer", vec![bench("x", 1000), bench("y", 1049)]),
        ],
        cfg,
    );
    // five percent
    report.drop_under(5_000);
    assert_eq!(names_in(&report), vec!["double".to_string(), "half".to_string()]);
    assert_eq!(report.config(), cfg);
    report.drop_under(5_000);
    assert_eq!(names_in(&report), vec!["double".to_string(), "half".to_string()]);
    report.drop_under(1_000);
    assert_eq!(names_in(&report), vec!["double".to_string(), "half".to_string()]);
    report.drop_under(-1);
    assert_eq!(names_in(&report), vec!["double".to_string(), "half".to_string()]);
    report.drop_under(50_000);
    assert_eq!(names_in(&report), vec!["double".to_string()]);
    report.drop_under(100_000);
    assert!(report.is_empty());
}

#[test]
fn drop_under_at_the_edge_of_the_threshold() {
    let cfg = config(true, RankingConfig::Benchmark, ValueFormat::Real);
    let make = || {
        Comparisons::new(vec![Comparison::new("c", vec![bench("x", 1000), bench("y", 1049)])], cfg)
    };
    // the difference is 4.9 percent
    let mut a = make();
    a.drop_under(4_899);
    assert_eq!(a.len(), 1);
    let mut b = make();
    b.drop_under(4_900);
    assert_eq!(b.len(), 0);
    let mut c = make();
    c.drop_under(0);
    assert_eq!(c.len(), 1);
}

#[test]
fn drop_under_with_a_threshold_below_zero() {
    let cfg = config(true, RankingConfig::Benchmark, ValueFormat::Real);
    let mut report = Comparisons::new(
        vec![
            Comparison::new("single", vec![bench("x", 100)]),
            Comparison::new("zeros", vec![bench("x", 0), bench("y", 0)]),
            Comparison::new("same", vec![bench("x", 5), bench("y", 5)]),
            Comparison::new("from_zero", vec![bench("x", 0), bench("y", 5)]),
        ],
        cfg,
    );
    report.drop_under(-1);
    assert_eq!(
        names_in(&report),
        vec!["single".to_string(), "same".to_string(), "from_zero".to_string()]
    );
    report.drop_under(0);
    assert_eq!(names_in(&report), vec!["from_zero".to_string()]);
    report.drop_under(i64::MAX);
    assert_eq!(names_in(&report), vec!["from_zero".to_string()]);
}

#[test]
fn baseline_colors_follow_the_distance_from_the_first() {
    let report = Comparisons::new(vec![], config(false, RankingConfig::Baseline, ValueFormat::Real));
    let comp = Comparison::new("c", vec![bench("base", 100), bench("other", 50)]);
    assert_eq!(report.set_colors_baseline_mode(&comp, 100_000), None);
    assert_eq!(report.set_colors_baseline_mode(&comp, 103_000), Some((Color::Red, false)));
    assert_eq!(report.set_colors_baseline_mode(&comp, 95_000), Some((Color::Green, false)));
    assert_eq!(report.set_colors_baseline_mode(&comp, 115_000), Some((Color::Red, true)));
    assert_eq!(report.set_colors_baseline_mode(&comp, 80_000), Some((Color::Green, true)));
    assert_eq!(report.set_color(&comp, 115_000), Some((Color::Red, true)));
    assert_eq!(report.set_color(&comp, 50_000), Some((Color::Green, true)));
}

#[test]
fn baseline_colors_at_the_thresholds() {
    let report = Comparisons::new(vec![], config(false, RankingConfig::Baseline, ValueFormat::Real));
    let comp = Comparison::new("c", vec![bench("base", 100)]);
    assert_eq!(report.set_colors_baseline_mode(&comp, 102_999), None);
    assert_eq!(report.set_colors_baseline_mode(&comp, 109_999), Some((Color::Red, false)));
    assert_eq!(report.set_colors_baseline_mode(&comp, 110_000), Some((Color::Red, true)));
    assert_eq!(report.set_colors_baseline_mode(&comp, 97_001), None);
    assert_eq!(report.set_colors_baseline_mode(&comp, 97_000), Some((Color::Green, false)));
    assert_eq!(report.set_colors_baseline_mode(&comp, 90_001), Some((Color::Green, false)));
    assert_eq!(report.set_colors_baseline_mode(&comp, 90_000), Some((Color::Green, true)));
    assert_eq!(report.set_colors_baseline_mode(&comp, 0), Some((Color::Green, true)));
    assert_eq!(report.set_colors_baseline_mode(&comp, u64::MAX), Some((Color::Red, true)));
}

#[test]
fn baseline_colors_against_a_baseline_of_zero() {
    let report = Comparisons::new(vec![], config(false, RankingConfig::Baseline, ValueFormat::Real));
    let comp = Comparison::new("c", vec![bench("base", 0), bench("other", 5)]);
    assert_eq!(report.set_colors_baseline_mode(&comp, 1), Some((Color::Red, true)));
    assert_eq!(report.set_colors_baseline_mode(&comp, 0), Some((Color::Green, true)));
}

#[test]
fn benchmark_colors_mark_every_fastest_benchmark() {
    let report =
        Comparisons::new(vec![], config(false, RankingConfig::Benchmark, ValueFormat::Real));
    let comp = Comparison::new(
        "c",
        vec![bench("a", 70), bench("b", 50), bench("c", 50), bench("d", 51)],
    );
    assert_eq!(report.set_colors_benchmark_mode(&comp, 70_000), None);
    assert_eq!(report.set_colors_benchmark_mode(&comp, 50_000), Some((Color::Green, true)));
    assert_eq!(report.set_colors_benchmark_mode(&comp, 51_000), None);
    assert_eq!(report.set_colors_benchmark_mode(&comp, 49_999), None);
    assert_eq!(report.set_color(&comp, 50_000), Some((Color::Green, true)));
    let table = Comparisons::new(vec![comp], report.config()).write();
    // heading and rule take four pieces each and the name one; the cells follow
    assert_eq!(
        colors(&table[13..17]),
        vec![None, Some((Color::Green, true)), Some((Color::Green, true)), None]
    );
}

#[test]
fn divide_by_is_the_fastest_or_the_first() {
    let comp = Comparison::new("c", vec![bench("x", 100), bench("y", 50)]);
    let ranked = Comparisons::new(vec![], config(true, RankingConfig::Benchmark, ValueFormat::Real));
    let based = Comparisons::new(vec![], config(true, RankingConfig::Baseline, ValueFormat::Real));
    assert_eq!(ranked.divide_by(&comp), 50_000);
    assert_eq!(based.divide_by(&comp), 100_000);
}

#[test]
fn values_as_multiples_and_as_percentages() {
    assert_eq!(value_string(ValueFormat::Real, 100, 50, 8), "    2.00");
    assert_eq!(value_string(ValueFormat::Percent, 100, 50, 8), "  200.00%");
    assert_eq!(value_string(ValueFormat::Real, 1, 3, 7), "   0.33");
    assert_eq!(value_string(ValueFormat::Percent, 1, 3, 7), "  33.33%");
    assert_eq!(value_string(ValueFormat::Real, 5, 0, 8), "     inf");
    assert_eq!(value_string(ValueFormat::Percent, 0, 0, 8), "     NaN%");
    assert_eq!(value_string(ValueFormat::Real, 123_456_789, 1, 7), "123456789.00");
    assert_eq!(value_string(ValueFormat::Percent, u64::MAX, 1, 0), "1844674407370955161500.00%");
}

#[test]
fn lines_and_cells() {
    let b = Benchmark::from_data("fast", 1_234_000, 56_000, Some(Throughput::Bytes(4_096)));
    assert_eq!(
        row_string(ValueFormat::Real, 617_000, &b),
        format!("fast\t{:>7}\t{:>15}\t{:>12}\n", "2.00", "1234.0±56.00ns", "4.0 KB/sec")
    );
    assert_eq!(
        cell_string(ValueFormat::Percent, true, 617_000, &b),
        format!("\t  {:>8}% {:>14} {:>14}", "200.00", "1234.0±56.00ns", "4.0 KB/sec")
    );
    assert_eq!(
        cell_string(ValueFormat::Real, false, 617_000, &b),
        format!("\t  {:>8} {:>14}", "2.00", "1234.0±56.00ns")
    );
}

#[test]
fn list_of_one_group_ranked_by_benchmark() {
    let report = Comparisons::new(
        vec![Comparison::new("grp/a", vec![bench("x", 100), bench("y", 50)])],
        config(true, RankingConfig::Benchmark, ValueFormat::Real),
    );
    let out = report.write();
    assert_eq!(
        texts(&out),
        vec![
            "a\n".to_string(),
            "-\n".to_string(),
            "x\t   2.00\t        100.0ns\t     ? ?/sec\n".to_string(),
            "y\t   1.00\t         50.0ns\t     ? ?/sec\n".to_string(),
        ]
    );
    assert_eq!(colors(&out), vec![None, None, None, None]);
    let comp = report.get(0).unwrap();
    assert_eq!(comp.group(), Some("grp"));
    assert_eq!(report.set_color(comp, comp.get("y").unwrap().picos), Some((Color::Green, true)));
    assert_eq!(report.set_color(comp, comp.get("x").unwrap().picos), None);
}

#[test]
fn table_of_one_group_ranked_by_benchmark() {
    let report = Comparisons::new(
        vec![Comparison::new("grp/a", vec![bench("x", 100), bench("y", 50)])],
        config(false, RankingConfig::Benchmark, ValueFormat::Real),
    );
    let out = report.write();
    assert_eq!(
        texts(&out),
        vec![
            "group".to_string(),
            "\t  x".to_string(),
            "\t  y".to_string(),
            "\n".to_string(),
            "-----".to_string(),
            "\t  -".to_string(),
            "\t  -".to_string(),
            "\n".to_string(),
            "a".to_string(),
            "\t      2.00        100.0ns".to_string(),
            "\t      1.00         50.0ns".to_string(),
            "\n".to_string(),
        ]
    );
    let mut want: Vec<Option<(Color, bool)>> = vec![None; 12];
    want[10] = Some((Color::Green, true));
    assert_eq!(colors(&out), want);
}

#[test]
fn list_is_in_the_order_of_names_with_an_empty_line_between_groups() {
    let report = Comparisons::new(
        vec![
            Comparison::new("first", vec![bench("b", 30), bench("a", 60)]),
            Comparison::new("none", vec![]),
            Comparison::new("g/third", vec![bench("z", 10)]),
        ],
        config(true, RankingConfig::Baseline, ValueFormat::Percent),
    );
    let out = report.write();
    let want = String::new()
        + "first\n-----\n"
        + &format!("a\t{:>7}%\t{:>15}\t{:>12}\n", "200.00", "60.0ns", "? ?/sec")
        + &format!("b\t{:>7}%\t{:>15}\t{:>12}\n", "100.00", "30.0ns", "? ?/sec")
        + "\n"
        + "none\n----\nNOTHING TO SHOW\n"
        + "\n"
        + "third\n-----\n"
        + &format!("z\t{:>7}%\t{:>15}\t{:>12}\n", "100.00", "10.0ns", "? ?/sec");
    assert_eq!(plain_text(&out), want);
    assert!(out.iter().all(|s| s.color.is_none()));
    let mut again: Vec<Span> = Vec::new();
    report.rows(&mut again);
    assert_eq!(plain_text(&again), want);
}

#[test]
fn table_shows_a_throughput_in_every_cell_if_any_benchmark_has_one() {
    let with = Benchmark::from_data("a", 100_000, 1_000, Some(Throughput::Bytes(4_096)));
    let without = Benchmark::from_data("b", 200_000, 2_000, None);
    let report = Comparisons::new(
        vec![Comparison::new("one", vec![with]), Comparison::new("two", vec![without])],
        config(false, RankingConfig::Baseline, ValueFormat::Real),
    );
    assert!(report.throughput_available());
    let out = report.write();
    let want = String::new()
        + "group\t  a\t  b\n"
        + "-----\t  -\t  -\n"
        + "one"
        + &format!("\t  {:>8} {:>14} {:>14}", "1.00", "100.0±1.00ns", "4.0 KB/sec")
        + "\t\n"
        + "two"
        + "\t"
        + &format!("\t  {:>8} {:>14} {:>14}", "1.00", "200.0±2.00ns", "? ?/sec")
        + "\n";
    assert_eq!(plain_text(&out), want);
}

#[test]
fn table_without_any_throughput_has_no_throughput_cells() {
    let report = Comparisons::new(
        vec![
            Comparison::new("one", vec![bench("a", 100)]),
            Comparison::new("two", vec![bench("a", 100), bench("b", 120)]),
        ],
        config(false, RankingConfig::Baseline, ValueFormat::Percent),
    );
    assert!(!report.throughput_available());
    let out = report.write();
    let want = String::new()
        + "group\t  a\t  b\n"
        + "-----\t  -\t  -\n"
        + "one"
        + &format!("\t  {:>8}% {:>14}", "100.00", "100.0ns")
        + "\t\n"
        + "two"
        + &format!("\t  {:>8}% {:>14}", "100.00", "100.0ns")
        + &format!("\t  {:>8}% {:>14}", "120.00", "120.0ns")
        + "\n";
    assert_eq!(plain_text(&out), want);
    let cells: Vec<Option<(Color, bool)>> = out.iter().filter_map(|s| s.color).map(Some).collect();
    assert_eq!(cells, vec![Some((Color::Red, true))]);
}

#[test]
fn table_columns_are_in_the_order_in_which_names_are_first_met() {
    let report = Comparisons::new(
        vec![
            Comparison::new("one", vec![bench("m", 1), bench("a", 2)]),
            Comparison::new("none", vec![]),
            Comparison::new("two", vec![bench("z", 3), bench("a", 4), bench("m", 5), bench("b", 6)]),
        ],
        config(false, RankingConfig::Benchmark, ValueFormat::Real),
    );
    assert_eq!(
        report.column_list(),
        vec!["m".to_string(), "a".to_string(), "z".to_string(), "b".to_string()]
    );
    let text = plain_text(&report.write());
    let lines: Vec<&str> = text.lines().collect();
    assert_eq!(lines.len(), 4);
    assert_eq!(lines[0], "group\t  m\t  a\t  z\t  b");
    assert!(lines[2].starts_with("one\t"));
    assert!(lines[2].ends_with("\t\t"));
    assert!(lines[3].starts_with("two\t"));
    let mut again: Vec<Span> = Vec::new();
    report.columns(&mut again);
    assert_eq!(plain_text(&again), text);
}

#[test]
fn table_of_nothing_has_its_heading_only() {
    let report =
        Comparisons::new(vec![], config(false, RankingConfig::Benchmark, ValueFormat::Real));
    assert_eq!(plain_text(&report.write()), "group\n-----\n");
    let list = Comparisons::new(vec![], config(true, RankingConfig::Benchmark, ValueFormat::Real));
    assert!(list.write().is_empty());
}

#[test]
fn table_skips_comparisons_without_benchmarks() {
    let report = Comparisons::new(
        vec![Comparison::new("none", vec![]), Comparison::new("also", vec![])],
        config(false, RankingConfig::Baseline, ValueFormat::Real),
    );
    assert_eq!(plain_text(&report.write()), "group\n-----\n");
}

#[test]
fn rules_are_as_wide_as_the_heading_is_shown() {
    let report = Comparisons::new(
        vec![Comparison::new("日本語", vec![bench("名前", 1)])],
        config(true, RankingConfig::Baseline, ValueFormat::Real),
    );
    let list = texts(&report.write());
    assert_eq!(list[0], "日本語\n");
    assert_eq!(list[1], "------\n");
    let table = Comparisons::new(
        vec![Comparison::new("日本語", vec![bench("名前", 1), bench("e\u{301}", 2)])],
        config(false, RankingConfig::Baseline, ValueFormat::Real),
    );
    let cells = texts(&table.write());
    assert_eq!(cells[4], "-----");
    assert_eq!(cells[5], "\t  ----");
    assert_eq!(cells[6], "\t  -");
}

#[test]
fn a_name_is_looked_up_among_the_columns() {
    let columns = vec!["a".to_string(), "bc".to_string()];
    assert!(has_name(&columns, "a"));
    assert!(has_name(&columns, "bc"));
    assert!(!has_name(&columns, "b"));
    assert!(!has_name(&columns, ""));
    assert!(!has_name(&Vec::new(), "a"));
}

#[test]
fn a_copy_of_a_report_shows_the_same() {
    let report = Comparisons::new(
        vec![
            Comparison::new("g/one", vec![bench("m", 3), bench("a", 2)]),
            Comparison::new("two", vec![]),
        ],
        config(false, RankingConfig::Benchmark, ValueFormat::Percent),
    );
    let copy = report.clone();
    assert_eq!(copy.len(), 2);
    assert_eq!(copy.config(), report.config());
    assert_eq!(copy.get(0).unwrap().group(), Some("g"));
    assert_eq!(copy.get(0).unwrap().perf_ordered(), report.get(0).unwrap().perf_ordered());
    assert_eq!(plain_text(&copy.write()), plain_text(&report.write()));
    let mut changed = report.clone();
    changed.drop_under(0);
    assert_eq!(changed.len(), 1);
    assert_eq!(report.len(), 2);
}
