use bench_report::decimal::{digits_string, fixed_string, ratio_string, round_div, Ratio};
use bench_report::text::{chars_of, pad_left, repeat_char, same_text};
use bench_report::units::{throughput, throughput_per, time, Scale, Throughput, TimeUnit};

#[test]
fn time_picks_nanoseconds_below_two_thousand() {
    assert_eq!(time(0, None), "0.0ns");
    assert_eq!(time(1_500, None), "1.5ns");
    assert_eq!(time(100_000, None), "100.0ns");
    assert_eq!(time(1_999_940, None), "1999.9ns");
    assert_eq!(time(1_999_999, None), "2000.0ns");
    assert_eq!(TimeUnit::of(1_999_999), TimeUnit::Nanos);
}

#[test]
fn time_picks_microseconds_from_two_thousand_nanoseconds() {
    assert_eq!(time(2_000_000, None), "2.0µs");
    assert_eq!(time(1_234_567_000, None), "1234.6µs");
    assert_eq!(time(1_999_999_999, None), "2000.0µs");
    assert_eq!(TimeUnit::of(2_000_000), TimeUnit::Micros);
    assert_eq!(TimeUnit::of(1_999_999_999), TimeUnit::Micros);
}

#[test]
fn time_picks_milliseconds_from_two_million_nanoseconds() {
    assert_eq!(time(2_000_000_000, None), "2.0ms");
    assert_eq!(time(1_999_999_999_999, None), "2000.0ms");
    assert_eq!(TimeUnit::of(2_000_000_000), TimeUnit::Millis);
}

#[test]
fn time_picks_seconds_from_two_billion_nanoseconds() {
    assert_eq!(time(2_000_000_000_000, None), "2.0s");
    assert_eq!(time(3_141_592_653_589, None), "3.1s");
    assert_eq!(time(u64::MAX, None), "18446744.1s");
    assert_eq!(TimeUnit::of(2_000_000_000_000), TimeUnit::Secs);
}

#[test]
fn time_shows_the_deviation_in_the_unit_of_the_duration() {
    assert_eq!(time(123_456, Some(7_891)), "123.5±7.89ns");
    assert_eq!(time(5_000_000, Some(250_000)), "5.0±0.25µs");
    // the deviation would be in µs by itself, but the duration decides
    assert_eq!(time(1_000_000, Some(3_000_000)), "1000.0±3000.00ns");
    assert_eq!(time(4_000_000_000_000, Some(0)), "4.0±0.00s");
}

#[test]
fn time_unit_divisors_and_labels() {
    assert_eq!(TimeUnit::Nanos.picos(), 1_000);
    assert_eq!(TimeUnit::Micros.picos(), 1_000_000);
    assert_eq!(TimeUnit::Millis.picos(), 1_000_000_000);
    assert_eq!(TimeUnit::Secs.picos(), 1_000_000_000_000);
    assert_eq!(TimeUnit::Nanos.label(), "ns");
    assert_eq!(TimeUnit::Micros.label(), "µs");
    assert_eq!(TimeUnit::Millis.label(), "ms");
    assert_eq!(TimeUnit::Secs.label(), "s");
}

#[test]
fn rounding_ties_go_to_the_even_digit() {
    assert_eq!(time(250, None), "0.2ns");
    assert_eq!(time(350, None), "0.4ns");
    assert_eq!(time(251, None), "0.3ns");
    assert_eq!(time(1_000, Some(5)), "1.0±0.00ns");
    assert_eq!(time(1_000, Some(15)), "1.0±0.02ns");
    assert_eq!(round_div(5, 2), 2);
    assert_eq!(round_div(7, 2), 4);
    assert_eq!(round_div(9, 4), 2);
    assert_eq!(round_div(11, 4), 3);
    assert_eq!(round_div(10, 4), 2);
    assert_eq!(round_div(14, 4), 4);
    assert_eq!(round_div(u128::MAX, 1), u128::MAX);
    assert_eq!(round_div(0, 7), 0);
}

#[test]
fn throughput_without_a_value_is_the_placeholder() {
    assert_eq!(throughput(None), "? ?/sec");
}

#[test]
fn throughput_is_unscaled_below_2048() {
    assert_eq!(throughput(Some(Throughput::Bytes(0))), "0 B/sec");
    assert_eq!(throughput(Some(Throughput::Bytes(2_047))), "2047 B/sec");
    assert_eq!(throughput(Some(Throughput::Elements(17))), "17 Elem/sec");
    assert_eq!(Scale::of(2_047), Scale::Unit);
}

#[test]
fn throughput_scales_by_powers_of_1024() {
    assert_eq!(throughput(Some(Throughput::Bytes(2_048))), "2.0 KB/sec");
    assert_eq!(throughput(Some(Throughput::Bytes(3_000))), "2.9 KB/sec");
    assert_eq!(throughput(Some(Throughput::Elements(2_097_151))), "2048.0 KElem/sec");
    assert_eq!(throughput(Some(Throughput::Bytes(2_097_152))), "2.0 MB/sec");
    assert_eq!(throughput(Some(Throughput::Bytes(2_147_483_647))), "2048.0 MB/sec");
    assert_eq!(throughput(Some(Throughput::Bytes(2_147_483_648))), "2.0 GB/sec");
    assert_eq!(throughput(Some(Throughput::Elements(u64::MAX))), "17179869184.0 GElem/sec");
    assert_eq!(Scale::of(2_048), Scale::Kilo);
    assert_eq!(Scale::of(2_097_151), Scale::Kilo);
    assert_eq!(Scale::of(2_097_152), Scale::Mega);
    assert_eq!(Scale::of(2_147_483_647), Scale::Mega);
    assert_eq!(Scale::of(2_147_483_648), Scale::Giga);
}

#[test]
fn throughput_per_takes_any_unit_name() {
    assert_eq!(throughput_per(5, "op"), "5 op/sec");
    assert_eq!(throughput_per(10_240, "op"), "10.0 Kop/sec");
    assert_eq!(Scale::Unit.factor(), 1);
    assert_eq!(Scale::Kilo.factor(), 1 << 10);
    assert_eq!(Scale::Mega.factor(), 1 << 20);
    assert_eq!(Scale::Giga.factor(), 1 << 30);
    assert_eq!(Scale::Unit.prefix(), "");
    assert_eq!(Scale::Giga.prefix(), "G");
}

#[test]
fn digits_and_fixed_point_text() {
    assert_eq!(digits_string(0), "0");
    assert_eq!(digits_string(9), "9");
    assert_eq!(digits_string(10), "10");
    assert_eq!(digits_string(u128::MAX), "340282366920938463463374607431768211455");
    assert_eq!(fixed_string(0, 2), "0.00");
    assert_eq!(fixed_string(5, 2), "0.05");
    assert_eq!(fixed_string(12_345, 2), "123.45");
    assert_eq!(fixed_string(12_345, 0), "12345");
    assert_eq!(fixed_string(100, 1), "10.0");
}

#[test]
fn ratios_as_text() {
    assert_eq!(ratio_string(1, 3, 2), "0.33");
    assert_eq!(ratio_string(2, 3, 2), "0.67");
    assert_eq!(ratio_string(1, 8, 2), "0.12");
    assert_eq!(ratio_string(3, 8, 2), "0.38");
    assert_eq!(ratio_string(200, 100, 2), "2.00");
    assert_eq!(ratio_string(7, 0, 2), "inf");
    assert_eq!(ratio_string(0, 0, 2), "NaN");
    assert_eq!(ratio_string(0, 5, 1), "0.0");
}

#[test]
fn ratio_exceeds_a_threshold_in_thousandths() {
    let half = Ratio { num: 1, den: 2 };
    assert!(half.exceeds(499));
    assert!(!half.exceeds(500));
    assert!(!half.exceeds(501));
    assert!(half.exceeds(-1));
    let zero = Ratio { num: 0, den: 1 };
    assert!(!zero.exceeds(0));
    assert!(zero.exceeds(-1));
    let unbounded = Ratio { num: 1, den: 0 };
    assert!(unbounded.exceeds(i64::MAX));
    let undefined = Ratio { num: 0, den: 0 };
    assert!(!undefined.exceeds(i64::MIN));
    let huge = Ratio { num: u128::MAX, den: u64::MAX };
    assert!(huge.exceeds(i64::MAX));
}

#[test]
fn padding_and_rules() {
    assert_eq!(pad_left("ab", 5), "   ab");
    assert_eq!(pad_left("abcde", 5), "abcde");
    assert_eq!(pad_left("abcdef", 5), "abcdef");
    assert_eq!(pad_left("", 2), "  ");
    // the field is counted in characters, not in bytes
    assert_eq!(pad_left("2.0µs", 7), "  2.0µs");
    assert_eq!(repeat_char('-', 0), "");
    assert_eq!(repeat_char('-', 4), "----");
    assert_eq!(repeat_char('=', 1), "=");
}

#[test]
fn texts_and_their_characters() {
    assert_eq!(chars_of(""), Vec::<char>::new());
    assert_eq!(chars_of("aµ/"), vec!['a', 'µ', '/']);
    assert!(same_text("", ""));
    assert!(same_text("abc", "abc"));
    assert!(!same_text("abc", "abd"));
    assert!(!same_text("abc", "ab"));
    assert!(!same_text("ab", "abc"));
}
