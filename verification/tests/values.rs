use kelvin::fixed::{parse_decimal, Fixed};
use kelvin::range::SensorMap;
use kelvin::sensor::Sensor;

#[test]
fn test_format() {
    let s = Sensor { round: None, ..Default::default() };
    assert_eq!(s.format_value(parse_decimal("7.466321").unwrap()), "7.466321");
    let s = Sensor { round: Some(3), ..Default::default() };
    assert_eq!(s.format_value(parse_decimal("7.466321").unwrap()), "7.466");
    let s = Sensor { round: Some(2), ..Default::default() };
    assert_eq!(s.format_value(parse_decimal("7.466321").unwrap()), "7.47");
    let s = Sensor { round: Some(0), ..Default::default() };
    assert_eq!(s.format_value(parse_decimal("7.466321").unwrap()), "7");
}

#[test]
fn test_value_map() {
    let map = SensorMap { min: parse_decimal("0").unwrap(), max: parse_decimal("255").unwrap() };
    let lo = parse_decimal("0").unwrap();
    let hi = parse_decimal("1024").unwrap();
    assert_eq!(map.map(parse_decimal("512").unwrap(), lo, hi).unwrap(), parse_decimal("127.5").unwrap());
    assert_eq!(map.map(parse_decimal("0").unwrap(), lo, hi).unwrap(), parse_decimal("0").unwrap());
    assert_eq!(map.map(parse_decimal("1024").unwrap(), lo, hi).unwrap(), parse_decimal("255").unwrap());
}

#[test]
fn map_clamps_out_of_range_inputs() {
    let map = SensorMap { min: parse_decimal("0").unwrap(), max: parse_decimal("255").unwrap() };
    let lo = parse_decimal("0").unwrap();
    let hi = parse_decimal("1024").unwrap();
    assert_eq!(map.map(parse_decimal("-512").unwrap(), lo, hi).unwrap(), parse_decimal("0").unwrap());
    assert_eq!(map.map(parse_decimal("2000").unwrap(), lo, hi).unwrap(), parse_decimal("255").unwrap());
}

#[test]
fn map_rejects_empty_input_range() {
    let map = SensorMap { min: parse_decimal("0").unwrap(), max: parse_decimal("255").unwrap() };
    let b = parse_decimal("7").unwrap();
    let r = map.map(parse_decimal("7").unwrap(), b, b);
    assert!(matches!(r, Err(kelvin::error::Error::InvalidRange)));
}

#[test]
fn map_follows_inverted_output_bounds() {
    // output declared high-to-low: results clamp to the declared bounds
    let map = SensorMap { min: parse_decimal("255").unwrap(), max: parse_decimal("0").unwrap() };
    let lo = parse_decimal("0").unwrap();
    let hi = parse_decimal("1024").unwrap();
    assert_eq!(map.map(parse_decimal("0").unwrap(), lo, hi).unwrap(), parse_decimal("255").unwrap());
    assert_eq!(map.map(parse_decimal("1024").unwrap(), lo, hi).unwrap(), parse_decimal("0").unwrap());
}

#[test]
fn parse_accepts_plain_decimals() {
    assert_eq!(parse_decimal("42").unwrap().raw(), 42_000_000);
    assert_eq!(parse_decimal("-1.5").unwrap().raw(), -1_500_000);
    assert_eq!(parse_decimal("+.5").unwrap().raw(), 500_000);
    assert_eq!(parse_decimal("3.").unwrap().raw(), 3_000_000);
    assert_eq!(parse_decimal("0.1234567").unwrap().raw(), 123_456);
}

#[test]
fn parse_rejects_other_shapes() {
    assert!(parse_decimal("").is_none());
    assert!(parse_decimal(".").is_none());
    assert!(parse_decimal("-").is_none());
    assert!(parse_decimal("1e3").is_none());
    assert!(parse_decimal("4 2").is_none());
    assert!(parse_decimal("2000000000").is_none());
}

#[test]
fn rounding_is_idempotent_on_rendered_values() {
    let s = Sensor { round: Some(2), ..Default::default() };
    let once = s.format_value(parse_decimal("7.466321").unwrap());
    assert_eq!(once, "7.47");
    let again = s.format_value(parse_decimal(&once).unwrap());
    assert_eq!(again, once);
}

#[test]
fn rounding_halves_move_away_from_zero() {
    let s = Sensor { round: Some(1), ..Default::default() };
    assert_eq!(s.format_value(parse_decimal("0.25").unwrap()), "0.3");
    assert_eq!(s.format_value(parse_decimal("-0.25").unwrap()), "-0.3");
}

#[test]
fn rounding_pads_beyond_native_precision() {
    let s = Sensor { round: Some(8), ..Default::default() };
    assert_eq!(s.format_value(parse_decimal("7.5").unwrap()), "7.50000000");
}

#[test]
fn natural_format_trims_trailing_zeros() {
    let s = Sensor { round: None, ..Default::default() };
    assert_eq!(s.format_value(parse_decimal("7.50").unwrap()), "7.5");
    assert_eq!(s.format_value(parse_decimal("3.000000").unwrap()), "3");
    assert_eq!(s.format_value(parse_decimal("-0.125").unwrap()), "-0.125");
}

#[test]
fn natural_format_parses_back() {
    for raw in [0i64, 1, -1, 7_466_321, -7_466_321, 1_000_000_000_000_000, -3] {
        let f = Fixed::from_raw(raw);
        let shown = kelvin::fixed::format_fixed(f, None);
        assert_eq!(parse_decimal(&shown).unwrap(), f);
    }
}

#[test]
fn fixed_constructors_round_trip() {
    assert_eq!(Fixed::from_int(512).raw(), 512_000_000);
    assert_eq!(Fixed::from_raw(127_500_000), parse_decimal("127.5").unwrap());
}
