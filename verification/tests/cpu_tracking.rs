use kelvin::cpu::{parse_core_count, parse_cpu_line, CpuCounters, CpuUsageTracker};
use kelvin::error::Error;
use kelvin::fixed::format_fixed;

#[test]
fn cpu_line_sums_fields_and_picks_idle() {
    let c = parse_cpu_line("cpu  10 20 30 40 50").unwrap();
    assert_eq!(c.total, 150);
    assert_eq!(c.idle, 40);
}

#[test]
fn cpu_line_with_exactly_four_fields() {
    let c = parse_cpu_line("cpu 1 2 3 4").unwrap();
    assert_eq!(c.total, 10);
    assert_eq!(c.idle, 4);
}

#[test]
fn cpu_line_too_short_is_a_parse_error() {
    let r = parse_cpu_line("cpu 1 2 3");
    match r {
        Err(Error::ParseError { raw, source }) => {
            assert_eq!(raw, "cpu 1 2 3");
            assert_eq!(source, "cpu counters");
        }
        other => panic!("expected a parse error, got {:?}", other),
    }
}

#[test]
fn cpu_line_with_wrong_label_is_rejected() {
    assert!(parse_cpu_line("gpu 1 2 3 4").is_err());
}

#[test]
fn cpu_line_with_non_numeric_field_is_rejected() {
    assert!(parse_cpu_line("cpu 1 x 3 4").is_err());
}

#[test]
fn core_count_reads_trimmed_number() {
    assert_eq!(parse_core_count("8\n").unwrap(), 8);
    assert_eq!(parse_core_count("  16  ").unwrap(), 16);
}

#[test]
fn core_count_rejects_zero_and_garbage() {
    assert!(matches!(parse_core_count("0"), Err(Error::ExternalToolError { .. })));
    assert!(matches!(parse_core_count("abc"), Err(Error::ExternalToolError { .. })));
    assert!(matches!(parse_core_count(""), Err(Error::ExternalToolError { .. })));
}

#[test]
fn usage_follows_the_deltas_and_moves_the_baseline() {
    let mut t = CpuUsageTracker::new();
    t.refresh_with(CpuCounters { total: 1000, idle: 600 });
    assert_eq!(t.prev_total, 1000);
    assert_eq!(t.prev_idle, 600);

    // delta_total = 1000, delta_idle = 500: 50% on one core
    let u = t.get_with(CpuCounters { total: 2000, idle: 1100 }, 1);
    assert_eq!(u.raw(), 50_000_000);
    assert_eq!(format_fixed(u, Some(1)), "50.0");
    assert_eq!(t.prev_total, 2000);
    assert_eq!(t.prev_idle, 1100);

    // the third reading is sequenced against the second, not the first,
    // and the core count stays the one adopted first
    let u = t.get_with(CpuCounters { total: 3000, idle: 1200 }, 99);
    assert_eq!(u.raw(), 90_000_000);
    assert_eq!(t.cores, Some(1));
}

#[test]
fn usage_divides_across_cores() {
    let mut t = CpuUsageTracker::new();
    t.refresh_with(CpuCounters { total: 0, idle: 0 });
    // fully busy on four cores reads as a quarter
    let u = t.get_with(CpuCounters { total: 400, idle: 0 }, 4);
    assert_eq!(u.raw(), 25_000_000);
}

#[test]
fn usage_is_clamped_to_the_percentage_range() {
    let mut t = CpuUsageTracker::new();
    t.refresh_with(CpuCounters { total: 1000, idle: 500 });
    // idle running backwards still reads at most 100%
    let u = t.get_with(CpuCounters { total: 2000, idle: 100 }, 1);
    assert_eq!(u.raw(), 100_000_000);
    // no elapsed ticks reads as zero
    let u = t.get_with(CpuCounters { total: 2000, idle: 100 }, 1);
    assert_eq!(u.raw(), 0);
    // more idle than elapsed reads as zero
    t.refresh_with(CpuCounters { total: 0, idle: 0 });
    let u = t.get_with(CpuCounters { total: 100, idle: 900 }, 1);
    assert_eq!(u.raw(), 0);
}

#[test]
fn refresh_does_not_touch_the_core_count() {
    let mut t = CpuUsageTracker::new();
    assert!(t.needs_core_count());
    let _ = t.get_with(CpuCounters { total: 100, idle: 50 }, 2);
    assert!(!t.needs_core_count());
    t.refresh_with(CpuCounters { total: 200, idle: 70 });
    assert_eq!(t.cores, Some(2));
}
