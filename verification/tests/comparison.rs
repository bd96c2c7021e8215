use bench_report::benchmark::Benchmark;
use bench_report::comparison::Comparison;
use bench_report::decimal::Ratio;
use bench_report::order::chars_le;
use bench_report::text::chars_of;
use bench_report::units::Throughput;

fn bench(name: &str, nanos: u64) -> Benchmark {
    Benchmark { name: name.to_string(), picos: nanos * 1_000, stddev: None, throughput: None }
}

fn names(list: &[&str]) -> Vec<String> {
    list.iter().map(|s| s.to_string()).collect()
}

#[test]
fn benchmark_from_data_keeps_the_figures() {
    let b = Benchmark::from_data("grp/fast", 1_500, 20, Some(Throughput::Bytes(7)));
    assert_eq!(b.name, "grp/fast");
    assert_eq!(b.picos, 1_500);
    assert_eq!(b.stddev, Some(20));
    assert_eq!(b.throughput, Some(Throughput::Bytes(7)));
}

#[test]
fn benchmark_name_changes_the_name_only() {
    let b = Benchmark::from_data("old", 1_500, 20, Some(Throughput::Elements(7))).name("new");
    assert_eq!(b.name, "new");
    assert_eq!(b.picos, 1_500);
    assert_eq!(b.stddev, Some(20));
    assert_eq!(b.throughput, Some(Throughput::Elements(7)));
}

#[test]
fn identifier_with_a_slash_names_a_group() {
    let c = Comparison::new("grp/a", vec![]);
    assert_eq!(c.group(), Some("grp"));
    assert_eq!(c.name(), "a");
}

#[test]
fn identifier_without_a_slash_has_no_group() {
    let c = Comparison::new("plain", vec![]);
    assert_eq!(c.group(), None);
    assert_eq!(c.name(), "plain");
    let e = Comparison::new("", vec![]);
    assert_eq!(e.group(), None);
    assert_eq!(e.name(), "");
}

#[test]
fn identifier_is_split_at_its_first_slash() {
    let c = Comparison::new("a/b/c", vec![]);
    assert_eq!(c.group(), Some("a"));
    assert_eq!(c.name(), "b/c");
    let d = Comparison::new("/x", vec![]);
    assert_eq!(d.group(), Some(""));
    assert_eq!(d.name(), "x");
    let e = Comparison::new("x/", vec![]);
    assert_eq!(e.group(), Some("x"));
    assert_eq!(e.name(), "");
    let f = Comparison::new("grüße/µ", vec![]);
    assert_eq!(f.group(), Some("grüße"));
    assert_eq!(f.name(), "µ");
}

#[test]
fn empty_comparison_is_valid() {
    let c = Comparison::new("none", vec![]);
    assert!(c.is_empty());
    assert_eq!(c.len(), 0);
    assert!(c.best().is_none());
    assert!(c.worst().is_none());
    assert!(c.first().is_none());
    assert!(c.get("x").is_none());
    assert!(c.get_by_perf(0).is_none());
    assert!(c.get_by_cmdline(0).is_none());
    assert!(c.get_by_name_order(0).is_none());
    assert_eq!(c.perf_ordered(), Vec::<String>::new());
    assert_eq!(c.cmdline_ordered(), Vec::<String>::new());
    assert_eq!(c.biggest_difference(), Ratio { num: 0, den: 1 });
}

#[test]
fn perf_order_is_fastest_first_and_cmdline_order_is_as_given() {
    let c = Comparison::new("c", vec![bench("x", 100), bench("y", 50), bench("z", 75)]);
    assert_eq!(c.perf_ordered(), names(&["y", "z", "x"]));
    assert_eq!(c.cmdline_ordered(), names(&["x", "y", "z"]));
    assert_eq!(c.best().unwrap().name, "y");
    assert_eq!(c.worst().unwrap().name, "x");
    assert_eq!(c.first().unwrap().name, "x");
    assert_eq!(c.get_by_perf(1).unwrap().name, "z");
    assert!(c.get_by_perf(3).is_none());
    assert_eq!(c.get_by_cmdline(2).unwrap().name, "z");
    assert!(c.get_by_cmdline(3).is_none());
    let mut last: u64 = 0;
    for pos in 0..c.len() {
        let b = c.get_by_perf(pos).unwrap();
        assert!(last <= b.picos);
        last = b.picos;
    }
}

#[test]
fn equal_durations_keep_the_order_in_which_they_were_given() {
    let c = Comparison::new(
        "c",
        vec![bench("d", 7), bench("c", 5), bench("b", 7), bench("a", 5), bench("e", 6)],
    );
    assert_eq!(c.perf_ordered(), names(&["c", "a", "e", "d", "b"]));
    assert_eq!(c.cmdline_ordered(), names(&["d", "c", "b", "a", "e"]));
}

#[test]
fn name_order_is_by_character() {
    let c = Comparison::new(
        "c",
        vec![bench("b", 1), bench("ab", 2), bench("a", 3), bench("B", 4), bench("µ", 5), bench("", 6)],
    );
    let mut seen: Vec<String> = Vec::new();
    for pos in 0..c.len() {
        seen.push(c.get_by_name_order(pos).unwrap().name.clone());
    }
    assert_eq!(seen, names(&["", "B", "a", "ab", "b", "µ"]));
    let mut sorted = seen.clone();
    sorted.sort();
    assert_eq!(seen, sorted);
}

#[test]
fn order_of_texts() {
    assert!(chars_le(&chars_of(""), &chars_of("")));
    assert!(chars_le(&chars_of(""), &chars_of("a")));
    assert!(!chars_le(&chars_of("a"), &chars_of("")));
    assert!(chars_le(&chars_of("a"), &chars_of("ab")));
    assert!(!chars_le(&chars_of("ab"), &chars_of("a")));
    assert!(chars_le(&chars_of("ab"), &chars_of("b")));
    assert!(chars_le(&chars_of("Z"), &chars_of("a")));
    assert!(chars_le(&chars_of("same"), &chars_of("same")));
}

#[test]
fn get_finds_a_benchmark_by_its_name() {
    let c = Comparison::new("c", vec![bench("x", 100), bench("y", 50)]);
    assert_eq!(c.get("y").unwrap().picos, 50_000);
    assert_eq!(c.get("x").unwrap().picos, 100_000);
    assert!(c.get("z").is_none());
    assert!(c.get("").is_none());
}

#[test]
fn get_finds_the_last_of_several_under_one_name() {
    let c = Comparison::new("c", vec![bench("x", 100), bench("y", 50), bench("x", 70)]);
    assert_eq!(c.get("x").unwrap().picos, 70_000);
    assert_eq!(c.len(), 3);
}

#[test]
fn biggest_difference_is_zero_for_fewer_than_two() {
    assert_eq!(Comparison::new("c", vec![]).biggest_difference(), Ratio { num: 0, den: 1 });
    assert_eq!(
        Comparison::new("c", vec![bench("x", 100)]).biggest_difference(),
        Ratio { num: 0, den: 1 }
    );
}

#[test]
fn biggest_difference_is_worst_less_best_over_best_in_percent() {
    let c = Comparison::new("c", vec![bench("x", 100), bench("y", 50), bench("z", 75)]);
    let d = c.biggest_difference();
    assert_eq!(d, Ratio { num: 5_000_000, den: 50_000 });
    // one hundred percent, in thousandths of a percent
    assert!(d.exceeds(99_999));
    assert!(!d.exceeds(100_000));
}

#[test]
fn biggest_difference_does_not_depend_on_the_order() {
    let a = Comparison::new("c", vec![bench("x", 100), bench("y", 50), bench("z", 75)]);
    let b = Comparison::new("c", vec![bench("z", 75), bench("x", 100), bench("y", 50)]);
    let c = Comparison::new("c", vec![bench("y", 50), bench("z", 75), bench("x", 100)]);
    assert_eq!(a.biggest_difference(), b.biggest_difference());
    assert_eq!(a.biggest_difference(), c.biggest_difference());
}

#[test]
fn biggest_difference_over_a_best_of_zero() {
    let c = Comparison::new("c", vec![bench("x", 0), bench("y", 5)]);
    assert_eq!(c.biggest_difference(), Ratio { num: 500_000, den: 0 });
    assert!(c.biggest_difference().exceeds(i64::MAX));
    let z = Comparison::new("c", vec![bench("x", 0), bench("y", 0)]);
    assert_eq!(z.biggest_difference(), Ratio { num: 0, den: 0 });
    assert!(!z.biggest_difference().exceeds(0));
}

#[test]
fn biggest_difference_of_the_longest_durations() {
    let c = Comparison::new(
        "c",
        vec![
            Benchmark { name: "x".to_string(), picos: u64::MAX, stddev: None, throughput: None },
            Benchmark { name: "y".to_string(), picos: 1, stddev: None, throughput: None },
        ],
    );
    assert_eq!(
        c.biggest_difference(),
        Ratio { num: (u64::MAX as u128 - 1) * 100, den: 1 }
    );
}
