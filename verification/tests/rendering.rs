use kelvin::error::Error;
use kelvin::fixed::{parse_decimal, Fixed};
use kelvin::render::{
    format_timestamp, frame_prefix, needed_file_paths, render_tick, Cli, ClockTime, RunMode,
};
use kelvin::sensor::{Config, FileEntry, Sensor};
use kelvin::snapshot::parse_snapshot;

#[test]
fn json_path_resolution() {
    let snap = parse_snapshot("{\"a\":{\"b\":{\"c\": 42}}}").unwrap();
    let s = Sensor {
        name: "t".to_owned(),
        path: "a/b/c".to_owned(),
        ..Default::default()
    };
    let files: Vec<FileEntry> = Vec::new();
    assert_eq!(s.get_value(&snap, &files).unwrap(), parse_decimal("42").unwrap());

    let missing = Sensor {
        name: "t".to_owned(),
        path: "a/x".to_owned(),
        ..Default::default()
    };
    match missing.get_value(&snap, &files) {
        Err(Error::LookupError { path, sensor }) => {
            assert_eq!(path, "a/x");
            assert_eq!(sensor, "t");
        }
        other => panic!("expected a lookup error, got {:?}", other),
    }
}

#[test]
fn prefixed_tree_path_resolves_the_same() {
    let snap = parse_snapshot("{\"a\":{\"b\":{\"c\": 42}}}").unwrap();
    let s = Sensor {
        name: "t".to_owned(),
        path: "@sensors/a/b/c".to_owned(),
        ..Default::default()
    };
    let files: Vec<FileEntry> = Vec::new();
    assert_eq!(s.get_value(&snap, &files).unwrap(), parse_decimal("42").unwrap());
}

#[test]
fn numeric_string_leaf_parses_like_a_number() {
    let snap = parse_snapshot("{\"v\": \"42.5\"}").unwrap();
    let s = Sensor { name: "v".to_owned(), path: "v".to_owned(), ..Default::default() };
    let files: Vec<FileEntry> = Vec::new();
    assert_eq!(s.get_value(&snap, &files).unwrap(), parse_decimal("42.5").unwrap());
}

#[test]
fn snapshot_rejects_text_that_is_not_json() {
    assert!(matches!(parse_snapshot("not json"), Err(Error::ExternalToolError { .. })));
}

#[test]
fn file_backed_sensor_reads_pre_read_text() {
    let snap = parse_snapshot("{}").unwrap();
    let s = Sensor {
        name: "hw".to_owned(),
        path: "/sys/class/hwmon/temp1".to_owned(),
        ..Default::default()
    };
    let files = vec![FileEntry {
        path: "/sys/class/hwmon/temp1".to_owned(),
        content: Some(" 42.5\n".to_owned()),
    }];
    assert_eq!(s.get_value(&snap, &files).unwrap(), parse_decimal("42.5").unwrap());

    let unread: Vec<FileEntry> = Vec::new();
    assert!(matches!(s.get_value(&snap, &unread), Err(Error::IoError { .. })));

    let failed = vec![FileEntry { path: "/sys/class/hwmon/temp1".to_owned(), content: None }];
    assert!(matches!(s.get_value(&snap, &failed), Err(Error::IoError { .. })));

    let garbled = vec![FileEntry {
        path: "/sys/class/hwmon/temp1".to_owned(),
        content: Some("abc\n".to_owned()),
    }];
    match s.get_value(&snap, &garbled) {
        Err(Error::ParseError { raw, source }) => {
            assert_eq!(raw, "abc");
            assert_eq!(source, "hw");
        }
        other => panic!("expected a parse error, got {:?}", other),
    }
}

#[test]
fn verbose_listing_keeps_configuration_order() {
    let snap = parse_snapshot("{\"temp\": 50, \"fan\": 1200}").unwrap();
    let cpu_temp = Sensor {
        name: "cpu_temp".to_owned(),
        label: Some("CPU".to_owned()),
        unit: Some("C".to_owned()),
        path: "@sensors/temp".to_owned(),
        ..Default::default()
    };
    let fan = Sensor { name: "fan".to_owned(), path: "@sensors/fan".to_owned(), ..Default::default() };
    let config = Config {
        format: None,
        active_poll_rate: 1000,
        idle_poll_rate: 5000,
        sensors: vec![cpu_temp, fan],
    };
    let files: Vec<FileEntry> = Vec::new();
    let out = render_tick(&config, &snap, &files, None, None).unwrap();
    assert_eq!(out, "CPU: 50 C\nfan: 1200");
}

#[test]
fn template_substitutes_every_occurrence_with_one_value() {
    let snap = parse_snapshot("{\"temp\": 50}").unwrap();
    let t = Sensor { name: "x".to_owned(), path: "@sensors/temp".to_owned(), ..Default::default() };
    let config = Config {
        format: Some("t={x} again {x}".to_owned()),
        active_poll_rate: 1000,
        idle_poll_rate: 5000,
        sensors: vec![t],
    };
    let files: Vec<FileEntry> = Vec::new();
    let out = render_tick(&config, &snap, &files, None, None).unwrap();
    assert_eq!(out, "t=50 again 50");
}

#[test]
fn absent_token_never_triggers_resolution() {
    let snap = parse_snapshot("{\"temp\": 50}").unwrap();
    let good = Sensor { name: "x".to_owned(), path: "@sensors/temp".to_owned(), ..Default::default() };
    let bad = Sensor {
        name: "boom".to_owned(),
        path: "@sensors/missing".to_owned(),
        ..Default::default()
    };
    // the failing sensor's token is absent: the tick must succeed
    let config = Config {
        format: Some("{x}".to_owned()),
        active_poll_rate: 1000,
        idle_poll_rate: 5000,
        sensors: vec![good.clone(), bad.clone()],
    };
    let files: Vec<FileEntry> = Vec::new();
    assert_eq!(render_tick(&config, &snap, &files, None, None).unwrap(), "50");

    // referencing it fails the tick
    let config = Config {
        format: Some("{x} {boom}".to_owned()),
        active_poll_rate: 1000,
        idle_poll_rate: 5000,
        sensors: vec![good, bad],
    };
    assert!(matches!(
        render_tick(&config, &snap, &files, None, None),
        Err(Error::LookupError { .. })
    ));
}

#[test]
fn unknown_token_passes_through_verbatim() {
    let snap = parse_snapshot("{}").unwrap();
    let config = Config {
        format: Some("hello {nobody}".to_owned()),
        active_poll_rate: 1000,
        idle_poll_rate: 5000,
        sensors: Vec::new(),
    };
    let files: Vec<FileEntry> = Vec::new();
    assert_eq!(render_tick(&config, &snap, &files, None, None).unwrap(), "hello {nobody}");
}

#[test]
fn builtin_tokens_render_cpu_and_clock() {
    let snap = parse_snapshot("{}").unwrap();
    let config = Config {
        format: Some("{cpu_usage} at {timestamp}".to_owned()),
        active_poll_rate: 1000,
        idle_poll_rate: 5000,
        sensors: Vec::new(),
    };
    let files: Vec<FileEntry> = Vec::new();
    let cpu = Fixed::from_raw(12_300_000);
    let now = ClockTime { hour: 14, minute: 5, second: 9 };
    let out = render_tick(&config, &snap, &files, Some(cpu), Some(now)).unwrap();
    assert_eq!(out, "12.3 at 14:05:09");
}

#[test]
fn single_shot_run_shows_cpu_as_unavailable() {
    let snap = parse_snapshot("{}").unwrap();
    let config = Config {
        format: Some("cpu {cpu_usage}".to_owned()),
        active_poll_rate: 1000,
        idle_poll_rate: 5000,
        sensors: Vec::new(),
    };
    let files: Vec<FileEntry> = Vec::new();
    assert_eq!(render_tick(&config, &snap, &files, None, None).unwrap(), "cpu ??");
}

#[test]
fn output_is_trimmed() {
    let snap = parse_snapshot("{\"temp\": 50}").unwrap();
    let t = Sensor { name: "x".to_owned(), path: "@sensors/temp".to_owned(), ..Default::default() };
    let config = Config {
        format: Some("  {x}  ".to_owned()),
        active_poll_rate: 1000,
        idle_poll_rate: 5000,
        sensors: vec![t],
    };
    let files: Vec<FileEntry> = Vec::new();
    assert_eq!(render_tick(&config, &snap, &files, None, None).unwrap(), "50");
}

#[test]
fn degenerate_range_map_aborts_the_tick() {
    let snap = parse_snapshot("{\"temp\": 50}").unwrap();
    let t = Sensor {
        name: "x".to_owned(),
        path: "@sensors/temp".to_owned(),
        min: parse_decimal("7").unwrap(),
        max: parse_decimal("7").unwrap(),
        map: Some(kelvin::range::SensorMap {
            min: parse_decimal("0").unwrap(),
            max: parse_decimal("100").unwrap(),
        }),
        ..Default::default()
    };
    let config = Config {
        format: None,
        active_poll_rate: 1000,
        idle_poll_rate: 5000,
        sensors: vec![t],
    };
    let files: Vec<FileEntry> = Vec::new();
    assert!(matches!(
        render_tick(&config, &snap, &files, None, None),
        Err(Error::InvalidRange)
    ));
}

#[test]
fn range_mapped_sensor_renders_mapped_value() {
    let snap = parse_snapshot("{\"pwm\": 512}").unwrap();
    let t = Sensor {
        name: "x".to_owned(),
        path: "@sensors/pwm".to_owned(),
        min: parse_decimal("0").unwrap(),
        max: parse_decimal("1024").unwrap(),
        map: Some(kelvin::range::SensorMap {
            min: parse_decimal("0").unwrap(),
            max: parse_decimal("255").unwrap(),
        }),
        ..Default::default()
    };
    let config = Config {
        format: Some("{x}".to_owned()),
        active_poll_rate: 1000,
        idle_poll_rate: 5000,
        sensors: vec![t],
    };
    let files: Vec<FileEntry> = Vec::new();
    assert_eq!(render_tick(&config, &snap, &files, None, None).unwrap(), "127.5");
}

#[test]
fn needed_paths_skip_unreferenced_sensors() {
    let a = Sensor { name: "a".to_owned(), path: "/p/a".to_owned(), ..Default::default() };
    let b = Sensor { name: "b".to_owned(), path: "/p/b".to_owned(), ..Default::default() };
    let tree = Sensor { name: "c".to_owned(), path: "@sensors/c".to_owned(), ..Default::default() };
    let config = Config {
        format: Some("{a}".to_owned()),
        active_poll_rate: 1000,
        idle_poll_rate: 5000,
        sensors: vec![a.clone(), b.clone(), tree.clone()],
    };
    assert_eq!(needed_file_paths(&config), vec!["/p/a".to_owned()]);

    let config = Config {
        format: None,
        active_poll_rate: 1000,
        idle_poll_rate: 5000,
        sensors: vec![a, b, tree],
    };
    assert_eq!(needed_file_paths(&config), vec!["/p/a".to_owned(), "/p/b".to_owned()]);
}

#[test]
fn run_mode_follows_the_once_flag() {
    let cli = Cli { config: None, daemon: false, alarm: false, kill: false, once: true };
    assert_eq!(cli.mode(), RunMode::Once);
    let cli = Cli { config: None, daemon: false, alarm: false, kill: false, once: false };
    assert_eq!(cli.mode(), RunMode::Repeating);
    assert_eq!(frame_prefix(RunMode::Repeating), "\u{1b}[2J\u{1b}[H");
    assert_eq!(frame_prefix(RunMode::Once), "");
}

#[test]
fn timestamps_are_zero_padded() {
    assert_eq!(format_timestamp(ClockTime { hour: 9, minute: 5, second: 0 }), "09:05:00");
    assert_eq!(format_timestamp(ClockTime { hour: 23, minute: 59, second: 59 }), "23:59:59");
}

#[test]
fn error_messages_carry_their_context() {
    let e = Error::IoError { path: "/x".to_owned() };
    assert_eq!(e.message(), "failed to read /x");
    let e = Error::ParseError { raw: "abc".to_owned(), source: "hw".to_owned() };
    assert_eq!(e.message(), "could not parse a number from \"abc\" for hw");
    let e = Error::InvalidRange;
    assert_eq!(e.message(), "range map with an empty input range");
}
