use nasr2sct::geo::{decimal_value, dms_value, LatLon, UNITS_PER_DEGREE, UNITS_PER_MINUTE, UNITS_PER_SECOND};

const DEGREE: i64 = UNITS_PER_DEGREE as i64;
const MINUTE: i64 = UNITS_PER_MINUTE as i64;
const SECOND: i64 = UNITS_PER_SECOND as i64;

fn groups(d: &str, m: &str, s: &str, letter: &str) -> Option<Vec<Option<String>>> {
    Some(vec![
        Some(format!("{}-{}-{}{}", d, m, s, letter)),
        Some(d.to_string()),
        Some(m.to_string()),
        Some(s.to_string()),
        Some(letter.to_string()),
    ])
}

#[test]
fn units_are_what_the_constants_say() {
    assert_eq!(UNITS_PER_DEGREE, 3_600_000_000_000_000);
    assert_eq!(UNITS_PER_MINUTE * 60, UNITS_PER_DEGREE);
    assert_eq!(UNITS_PER_SECOND * 60, UNITS_PER_MINUTE);
}

#[test]
fn new_keeps_latitude_then_longitude() {
    let p = LatLon::new(5, -7);
    assert_eq!(p.0, 5);
    assert_eq!(p.1, -7);
    assert_eq!(p, LatLon(5, -7));
}

#[test]
fn legacy_text_decodes_to_exact_units() {
    let p = LatLon::from_fix_txt("31-53-00.510N", "081-23-18.000W").unwrap();
    assert_eq!(p.0, 114_780_510_000_000_000);
    assert_eq!(p.1, -292_998_000_000_000_000);
    assert_eq!(p.0, 31 * DEGREE + 53 * MINUTE + 510 * SECOND / 1000);
}

#[test]
fn legacy_text_round_trips_to_sector_text() {
    let p = LatLon::from_fix_txt("31-53-00.510N", "081-23-18.000W").unwrap();
    assert_eq!(p.to_vrc(), "N031.53.00.510 W081.23.18.000");
}

#[test]
fn legacy_text_south_and_east() {
    let p = LatLon::from_fix_txt("10-30-00.000S", "120-00-30.250E").unwrap();
    assert_eq!(p.0, -(10 * DEGREE + 30 * MINUTE));
    assert_eq!(p.1, 120 * DEGREE + 30 * SECOND + SECOND / 4);
    assert_eq!(p.to_vrc(), "S010.30.00.000 E120.00.30.250");
}

#[test]
fn legacy_text_without_hemisphere_letter_has_no_value() {
    assert_eq!(LatLon::from_fix_txt("31-53-00.510", "081-23-18.000W"), None);
    assert_eq!(LatLon::from_fix_txt("31-53-00.510N", "081-23-18.000"), None);
    assert_eq!(LatLon::from_fix_txt("31-53-00.5", "081-23-18.000W"), None);
}

#[test]
fn legacy_text_malformed_has_no_value() {
    assert_eq!(LatLon::from_fix_txt("", ""), None);
    assert_eq!(LatLon::from_fix_txt("31-53N", "081-23-18.000W"), None);
    assert_eq!(LatLon::from_fix_txt("31-53-00N", "081-23-18.000W"), None);
    assert_eq!(LatLon::from_fix_txt("31-53-00.510N", "garbage"), None);
    assert_eq!(LatLon::from_fix_txt("31-53-00.510X", "081-23-18.000W"), None);
    assert_eq!(LatLon::from_fix_txt("31-53-00.510n", "081-23-18.000W"), None);
}

#[test]
fn legacy_text_is_found_inside_other_text() {
    let p = LatLon::from_fix_txt("  31-53-00.510N  ", "x081-23-18.000Wy").unwrap();
    assert_eq!(p.to_vrc(), "N031.53.00.510 W081.23.18.000");
}

#[test]
fn legacy_text_fraction_beyond_the_unit_is_cut() {
    let p = LatLon::from_fix_txt("00-00-00.0000000000019N", "00-00-00.1E").unwrap();
    assert_eq!(p.0, 1);
    assert_eq!(p.1, SECOND / 10);
}

#[test]
fn legacy_text_too_large_has_no_value() {
    assert_eq!(LatLon::from_fix_txt("2563-00-00.0N", "0-0-0.0E"), None);
    assert_eq!(LatLon::from_fix_txt("99999999999999999999999-00-00.0N", "0-0-0.0E"), None);
    assert_eq!(LatLon::from_fix_txt("0-153723-00.0N", "0-0-0.0E"), None);
    assert_eq!(LatLon::from_fix_txt("0-0-9223373.0N", "0-0-0.0E"), None);
    let p = LatLon::from_fix_txt("2562-00-00.0N", "0-0-0.0E").unwrap();
    assert_eq!(p.0, 2562 * DEGREE);
}

#[test]
fn dms_value_reads_the_groups() {
    assert_eq!(dms_value(&groups("31", "53", "00.510", "N")), Some(114_780_510_000_000_000));
    assert_eq!(dms_value(&groups("31", "53", "00.510", "S")), Some(-114_780_510_000_000_000));
    assert_eq!(dms_value(&groups("31", "53", "00.510", "W")), Some(-114_780_510_000_000_000));
    assert_eq!(dms_value(&groups("31", "53", "00.510", "E")), Some(114_780_510_000_000_000));
    assert_eq!(dms_value(&groups("1", "90", "75.5", "N")), Some(DEGREE + 90 * MINUTE + 75 * SECOND + SECOND / 2));
}

#[test]
fn dms_value_refuses_what_is_no_component() {
    assert_eq!(dms_value(&None), None);
    assert_eq!(dms_value(&Some(vec![])), None);
    assert_eq!(dms_value(&groups("", "53", "00.510", "N")), None);
    assert_eq!(dms_value(&groups("31", "", "00.510", "N")), None);
    assert_eq!(dms_value(&groups("31", "53", "00", "N")), None);
    assert_eq!(dms_value(&groups("31", "53", ".5", "N")), None);
    assert_eq!(dms_value(&groups("31", "53", "5.", "N")), None);
    assert_eq!(dms_value(&groups("31", "53", "0.5.1", "N")), None);
    assert_eq!(dms_value(&groups("3a", "53", "00.510", "N")), None);
    assert_eq!(dms_value(&groups("31", "53", "00.510", "0")), None);
    assert_eq!(dms_value(&groups("31", "53", "00.510", "NS")), None);
    assert_eq!(dms_value(&groups("\u{0663}1", "53", "00.510", "N")), None);
    let mut missing = groups("31", "53", "00.510", "N").unwrap();
    missing[2] = None;
    assert_eq!(dms_value(&Some(missing)), None);
}

#[test]
fn from_dms_captures_needs_both() {
    let lat = groups("31", "53", "00.510", "N");
    let lon = groups("081", "23", "18.000", "W");
    assert_eq!(
        LatLon::from_dms_captures(&lat, &lon),
        Some(LatLon(114_780_510_000_000_000, -292_998_000_000_000_000))
    );
    assert_eq!(LatLon::from_dms_captures(&lat, &None), None);
    assert_eq!(LatLon::from_dms_captures(&None, &lon), None);
}

#[test]
fn aixm_text_is_longitude_then_latitude() {
    let p = LatLon::from_aixm("-81.0 31.0");
    assert_eq!(p, LatLon(31 * DEGREE, -81 * DEGREE));
    assert_eq!(LatLon::parse_aixm("-81.0 31.0"), Some(p));
    assert_eq!(p.to_vrc(), "N031.00.00.000 W081.00.00.000");
}

#[test]
fn aixm_text_takes_any_white_space() {
    let p = LatLon::parse_aixm("\n\t -95.5\u{00A0}\r\n29.25 \n").unwrap();
    assert_eq!(p, LatLon(29 * DEGREE + DEGREE / 4, -(95 * DEGREE + DEGREE / 2)));
}

#[test]
fn aixm_text_must_be_two_numbers() {
    assert_eq!(LatLon::parse_aixm(""), None);
    assert_eq!(LatLon::parse_aixm("   "), None);
    assert_eq!(LatLon::parse_aixm("-81.0"), None);
    assert_eq!(LatLon::parse_aixm("-81.0 31.0 12.0"), None);
    assert_eq!(LatLon::parse_aixm("abc 31.0"), None);
    assert_eq!(LatLon::parse_aixm("-81.0 up"), None);
    assert_eq!(LatLon::parse_aixm("-81.0,31.0"), None);
}

#[test]
fn decimal_value_reads_signs_and_points() {
    assert_eq!(decimal_value("0"), Some(0));
    assert_eq!(decimal_value("-0"), Some(0));
    assert_eq!(decimal_value("1"), Some(DEGREE));
    assert_eq!(decimal_value("+1"), Some(DEGREE));
    assert_eq!(decimal_value("-1"), Some(-DEGREE));
    assert_eq!(decimal_value("1."), Some(DEGREE));
    assert_eq!(decimal_value(".5"), Some(DEGREE / 2));
    assert_eq!(decimal_value("-.25"), Some(-DEGREE / 4));
    assert_eq!(decimal_value("007.50"), Some(7 * DEGREE + DEGREE / 2));
    assert_eq!(decimal_value("31.883475"), Some(114_780_510_000_000_000));
}

#[test]
fn decimal_value_refuses_what_is_no_number() {
    assert_eq!(decimal_value(""), None);
    assert_eq!(decimal_value("."), None);
    assert_eq!(decimal_value("-"), None);
    assert_eq!(decimal_value("+"), None);
    assert_eq!(decimal_value("--1"), None);
    assert_eq!(decimal_value("1.2.3"), None);
    assert_eq!(decimal_value("1e3"), None);
    assert_eq!(decimal_value("nan"), None);
    assert_eq!(decimal_value("inf"), None);
    assert_eq!(decimal_value("1,5"), None);
    assert_eq!(decimal_value("\u{0661}"), None);
}

#[test]
fn decimal_value_keeps_fourteen_decimals() {
    assert_eq!(decimal_value("0.00000000000001"), Some(36));
    assert_eq!(decimal_value("0.000000000000019"), Some(36));
    assert_eq!(decimal_value("0.000000000000009"), Some(0));
    assert_eq!(decimal_value("-0.00000000000002"), Some(-72));
}

#[test]
fn decimal_value_refuses_what_cannot_be_held() {
    assert_eq!(decimal_value("2562"), Some(2562 * DEGREE));
    assert_eq!(decimal_value("2562.04"), Some(2562 * DEGREE + DEGREE / 25));
    assert_eq!(decimal_value("2562.05"), None);
    assert_eq!(decimal_value("2563"), None);
    assert_eq!(decimal_value("-2563"), None);
    assert_eq!(decimal_value("123456789012345678901234567890"), None);
}

#[test]
fn sector_text_of_zero_is_north_and_east() {
    assert_eq!(LatLon(0, 0).to_vrc(), "N000.00.00.000 E000.00.00.000");
}

#[test]
fn sector_text_pads_degrees_minutes_and_seconds() {
    let p = LatLon(5 * DEGREE + 4 * MINUTE + 3 * SECOND + 2 * SECOND / 1000, -(7 * DEGREE));
    assert_eq!(p.to_vrc(), "N005.04.03.002 W007.00.00.000");
}

#[test]
fn sector_text_rounds_seconds_to_thousandths_half_to_even() {
    let milli = SECOND / 1000;
    assert_eq!(LatLon(milli / 2 - 1, 0).to_vrc(), "N000.00.00.000 E000.00.00.000");
    assert_eq!(LatLon(milli / 2, 0).to_vrc(), "N000.00.00.000 E000.00.00.000");
    assert_eq!(LatLon(milli / 2 + 1, 0).to_vrc(), "N000.00.00.001 E000.00.00.000");
    assert_eq!(LatLon(milli + milli / 2, 0).to_vrc(), "N000.00.00.002 E000.00.00.000");
    assert_eq!(LatLon(2 * milli + milli / 2, 0).to_vrc(), "N000.00.00.002 E000.00.00.000");
}

#[test]
fn sector_text_does_not_carry_rounded_seconds() {
    let p = LatLon(MINUTE - 1, -(2 * DEGREE - 1));
    assert_eq!(p.to_vrc(), "N000.00.60.000 W001.59.60.000");
}

#[test]
fn sector_text_of_the_extremes() {
    assert_eq!(
        LatLon(i64::MAX, i64::MIN).to_vrc(),
        "N2562.02.52.037 W2562.02.52.037"
    );
}

#[test]
fn sector_text_minute_boundary_is_exact() {
    let p = LatLon::from_fix_txt("31-54-00.000N", "081-00-00.000W").unwrap();
    assert_eq!(p.to_vrc(), "N031.54.00.000 W081.00.00.000");
}
