use solar_tracer::decimal::{scan_number, Decimal, NumberScan};
use solar_tracer::field::scan_field;
use solar_tracer::line::LineReader;
use solar_tracer::sample::{current_timestamp, timestamp_from_clock, Sample};
use solar_tracer::wire::DecodeError;

const EXAMPLE: &str = "12.6:18.3:2.1:0.0:14.4:1.0:0.0:25.5:0.0:1.0:9999999";

fn dec(negative: bool, units: u64, scale: u8) -> Decimal {
    Decimal { negative, units, scale }
}

fn as_f64(d: Decimal) -> f64 {
    d.to_text().parse::<f64>().unwrap()
}

#[test]
fn example_line_decodes() {
    let s = Sample::decode(EXAMPLE.as_bytes(), 1_700_000_000).unwrap();
    assert_eq!(s.get_time(), 1_700_000_000);
    assert_eq!(s.get_battery_voltage(), dec(false, 126, 1));
    assert_eq!(s.get_pv_voltage(), dec(false, 183, 1));
    assert_eq!(s.get_load_current(), dec(false, 21, 1));
    assert_eq!(s.get_over_discharge(), dec(false, 0, 0));
    assert_eq!(s.get_battery_max(), dec(false, 144, 1));
    assert_eq!(s.get_battery_temp(), dec(false, 255, 1));
    assert_eq!(s.get_charge_current(), dec(false, 0, 0));
    assert_eq!(s.get_battery_full(), dec(false, 1, 0));
    assert_eq!(as_f64(s.get_battery_voltage()), 12.6);
    assert_eq!(as_f64(s.get_pv_voltage()), 18.3);
    assert_eq!(as_f64(s.get_load_current()), 2.1);
    assert_eq!(as_f64(s.get_over_discharge()), 0.0);
    assert_eq!(as_f64(s.get_battery_max()), 14.4);
    assert_eq!(as_f64(s.get_battery_temp()), 25.5);
    assert_eq!(as_f64(s.get_charge_current()), 0.0);
    assert!(s.is_battery_full());
    assert!(!s.is_charging());
    assert!(s.is_load_on());
}

#[test]
fn readings_round_trip_through_text() {
    let line = "-3.25:+7:.5:0012.60:0:100:1:-0.0:42.125:1:77";
    let s = Sample::decode(line.as_bytes(), 0).unwrap();
    let fields = [
        s.battery_voltage,
        s.pv_voltage,
        s.load_current,
        s.over_discharge,
        s.battery_max,
        s.battery_full,
        s.charging,
        s.battery_temp,
        s.charge_current,
        s.load_onoff,
    ];
    let expected = [-3.25, 7.0, 0.5, 12.6, 0.0, 100.0, 1.0, 0.0, 42.125, 1.0];
    for (d, want) in fields.iter().zip(expected.iter()) {
        let text = d.to_text();
        let bytes = text.as_bytes();
        assert_eq!(scan_number(bytes, 0, bytes.len()), NumberScan::Value(*d));
        assert_eq!(text.parse::<f64>().unwrap(), *want);
    }
    assert_eq!(s.load_current.to_text(), "0.5");
    assert_eq!(s.over_discharge.to_text(), "12.6");
    assert_eq!(s.battery_temp.to_text(), "0");
    assert_eq!(s.battery_temp, Decimal::zero());
    assert_eq!(s.charging.to_text(), "1");
}

#[test]
fn decimal_text_forms() {
    assert_eq!(dec(false, 126, 1).to_text(), "12.6");
    assert_eq!(dec(false, 5, 2).to_text(), "0.05");
    assert_eq!(dec(true, 325, 2).to_text(), "-3.25");
    assert_eq!(dec(false, 0, 0).to_text(), "0");
    assert_eq!(dec(false, 9_999_999_999_999_999_999, 19).to_text(), "0.9999999999999999999");
    assert_eq!(Decimal::from_int(-5).to_text(), "-5");
    assert_eq!(Decimal::from_int(i64::MIN).to_text(), "-9223372036854775808");
}

#[test]
fn number_tokens() {
    let scan = |s: &str| scan_number(s.as_bytes(), 0, s.len());
    assert_eq!(scan("12.6"), NumberScan::Value(dec(false, 126, 1)));
    assert_eq!(scan("-.5"), NumberScan::Value(dec(true, 5, 1)));
    assert_eq!(scan("5."), NumberScan::NotNumber);
    assert_eq!(scan("1.2.3"), NumberScan::NotNumber);
    assert_eq!(scan(""), NumberScan::NotNumber);
    assert_eq!(scan("+"), NumberScan::NotNumber);
    assert_eq!(scan("1e5"), NumberScan::NotNumber);
    assert_eq!(scan("9999999999999999999"), NumberScan::Value(dec(false, 9_999_999_999_999_999_999, 0)));
    assert_eq!(scan("10000000000000000000"), NumberScan::TooLarge);
    assert_eq!(scan("0.00000000000000000001"), NumberScan::TooLarge);
    assert_eq!(scan("12.60"), NumberScan::Value(dec(false, 126, 1)));
    assert_eq!(scan("1.000"), NumberScan::Value(dec(false, 1, 0)));
    assert_eq!(scan("-0.0"), NumberScan::Value(dec(false, 0, 0)));
    assert_eq!(scan("-0"), NumberScan::Value(dec(false, 0, 0)));
    assert_eq!(scan("100"), NumberScan::Value(dec(false, 100, 0)));
    assert_eq!(scan("12.6000000000000000000000"), NumberScan::Value(dec(false, 126, 1)));
}

#[test]
fn malformed_lines_are_rejected() {
    assert_eq!(Sample::decode(b"", 0), Err(DecodeError::Malformed));
    assert_eq!(Sample::decode(b"1:2:3:4:5:6:7:8:9", 0), Err(DecodeError::Malformed));
    assert_eq!(Sample::decode(b"1:2:3:x:5:6:7:8:9:10:11", 0), Err(DecodeError::Malformed));
    assert_eq!(Sample::decode(b"1:2:3:4:5:6:7:8:9:x", 0), Err(DecodeError::Malformed));
}

#[test]
fn frame_may_start_inside_a_piece() {
    let s = Sample::decode(b"ab1:2:3:4:5:6:7:8:9:10:11", 5).unwrap();
    assert_eq!(s.battery_voltage, dec(false, 2, 0));
    assert_eq!(s.load_onoff, dec(false, 11, 0));
}

#[test]
fn equal_values_decode_equal() {
    let a = Sample::decode(b"12.60:1.0:0:0:0:0:0:0:0:0:1", 4).unwrap();
    let b = Sample::decode(b"12.6:1:0.00:0:0:0:0:0:0:0:1", 4).unwrap();
    assert_eq!(a, b);
    assert_eq!(a.describe(), b.describe());
}

#[test]
fn signed_zero_decodes_equal() {
    let a = Sample::decode(b"-0:1:2:3:4:5:6:7:8:9:10", 4).unwrap();
    let b = Sample::decode(b"0:1:2:3:4:5:6:7:8:9:10", 4).unwrap();
    let c = Sample::decode(b"-0.0e3:1:2:3:4:5:6:7:8:9:10", 4).unwrap();
    assert_eq!(a, b);
    assert_eq!(a, c);
    assert!(a.is_wf());
    assert!(!dec(true, 0, 0).is_wf());
    assert!(!dec(false, 10, 1).is_wf());
    assert!(dec(true, 5, 1).is_wf());
}

#[test]
fn too_few_numbers() {
    assert_eq!(Sample::decode(b"x1:2:3:4:5:6:7:8:9:10", 0), Err(DecodeError::MissingFields));
}

#[test]
fn oversized_number() {
    let line = b"1:2:3:4:5:6:7:8:9:10:123456789012345678901234";
    assert_eq!(Sample::decode(line, 0), Ok(Sample::decode(b"1:2:3:4:5:6:7:8:9:10:1", 0).unwrap()));
    let line = b"123456789012345678901234:2:3:4:5:6:7:8:9:10:1";
    assert_eq!(Sample::decode(line, 0), Err(DecodeError::FieldOutOfRange));
}

#[test]
fn nine_numbers_and_tail_fill_ten_fields() {
    let s = Sample::decode(b"1:2:3:4:5:6:7:8:9:10", 0).unwrap();
    assert_eq!(s.load_onoff, dec(false, 10, 0));
}

#[test]
fn from_str_stamps_current_time() {
    let s = Sample::from_str(EXAMPLE).unwrap();
    assert!(s.get_time() > 1_600_000_000);
    assert_eq!(s.get_battery_voltage(), dec(false, 126, 1));
    assert_eq!(Sample::from_str("garbage").unwrap_err(), DecodeError::Malformed);
}

#[test]
fn placeholder_is_zero() {
    let p = Sample::placeholder(9);
    assert_eq!(p.get_time(), 9);
    assert_eq!(p.get_battery_voltage(), Decimal::zero());
    assert!(!p.is_load_on());
    let d = Sample::default();
    assert!(d.get_time() > 0);
    assert_eq!(d.get_load_onoff(), Decimal::zero());
}

#[test]
fn new_takes_first_ten() {
    let data: Vec<Decimal> = (1..=12).map(Decimal::from_int).collect();
    let s = Sample::new(&data);
    assert_eq!(s.battery_voltage, Decimal::from_int(1));
    assert_eq!(s.load_onoff, Decimal::from_int(10));
    assert!(s.get_time() > 0);
}

#[test]
fn time_formatting() {
    let s = Sample::placeholder(0);
    assert_eq!(s.get_time_formatted().unwrap(), "Thu, 1 Jan 1970 00:00:00 +0000");
    let s = Sample::placeholder(1_000_000_000);
    assert_eq!(s.get_time_formatted().unwrap(), "Sun, 9 Sep 2001 01:46:40 +0000");
    assert_eq!(Sample::placeholder(253_402_300_800).get_time_formatted(), None);
}

#[test]
fn description_text() {
    let s = Sample::decode(EXAMPLE.as_bytes(), 0).unwrap();
    assert_eq!(
        s.describe(),
        "(0, 12.6v, 18.3v, 2.1A, 0, 14.4v, 1, 0, 25.5C, 0A, 1)"
    );
    let zero = Sample::decode(b"0.0:0.0:0.0:0.0:0.0:0.0:0.0:0.0:0.0:0.0:0", 3).unwrap();
    assert_eq!(zero.describe(), "(3, 0v, 0v, 0A, 0, 0v, 0, 0, 0C, 0A, 0)");
}

#[test]
fn line_reader_stops_at_newline() {
    let mut r = LineReader::new();
    let mut done = false;
    for b in b"1:2\r\n".iter() {
        done = r.feed(Some(*b));
    }
    assert!(done);
    assert_eq!(r.take_line(), b"1:2".to_vec());
}

#[test]
fn line_reader_stops_on_empty_read() {
    let mut r = LineReader::new();
    assert!(!r.feed(Some(b'7')));
    assert!(!r.feed(Some(b'\r')));
    assert!(r.feed(None));
    assert_eq!(r.take_line(), b"7".to_vec());
}

#[test]
fn clock_readings_to_timestamps() {
    assert_eq!(timestamp_from_clock(Some(1_700_000_000)), 1_700_000_000);
    assert_eq!(timestamp_from_clock(None), 0);
    assert_eq!(timestamp_from_clock(Some(u64::MAX)), 0);
    assert!(current_timestamp() > 1_600_000_000);
}

#[test]
fn field_tokens_read_like_f64() {
    let scan = |s: &str| scan_field(s.as_bytes(), 0, s.len());
    assert_eq!(scan("12.60"), NumberScan::Value(dec(false, 126, 1)));
    assert_eq!(scan("5."), NumberScan::Value(dec(false, 5, 0)));
    assert_eq!(scan("1e5"), NumberScan::Value(dec(false, 100_000, 0)));
    assert_eq!(scan("2.5E-3"), NumberScan::Value(dec(false, 25, 4)));
    assert_eq!(scan("-100e-2"), NumberScan::Value(dec(true, 1, 0)));
    assert_eq!(scan("+.5e+1"), NumberScan::Value(dec(false, 5, 0)));
    assert_eq!(scan("0e999999999999999999999999"), NumberScan::Value(dec(false, 0, 0)));
    assert_eq!(scan("1e19"), NumberScan::TooLarge);
    assert_eq!(scan("1e-20"), NumberScan::TooLarge);
    assert_eq!(scan("1e999999999999999999999999"), NumberScan::TooLarge);
    assert_eq!(scan("inf"), NumberScan::TooLarge);
    assert_eq!(scan("-Infinity"), NumberScan::TooLarge);
    assert_eq!(scan("NaN"), NumberScan::TooLarge);
    assert_eq!(scan("e5"), NumberScan::NotNumber);
    assert_eq!(scan("1e"), NumberScan::NotNumber);
    assert_eq!(scan("1e5e5"), NumberScan::NotNumber);
    assert_eq!(scan("."), NumberScan::NotNumber);
    assert_eq!(scan("1.2.3"), NumberScan::NotNumber);
    assert_eq!(scan("infinit"), NumberScan::NotNumber);
    assert_eq!(scan(""), NumberScan::NotNumber);
}

#[test]
fn exponent_and_point_forms_count_as_fields() {
    let s = Sample::decode(b"1e5:2:3:4:5:6:7:8:9:10", 0).unwrap();
    assert_eq!(s.battery_voltage, dec(false, 100_000, 0));
    assert_eq!(s.load_onoff, dec(false, 10, 0));
    let s = Sample::decode(b"x:5.:1:2:3:4:5:6:7:8:9:10", 0).unwrap();
    assert_eq!(s.battery_voltage, dec(false, 5, 0));
    assert_eq!(s.load_onoff, dec(false, 9, 0));
    assert_eq!(
        Sample::decode(b"inf:1:2:3:4:5:6:7:8:9:10", 0),
        Err(DecodeError::FieldOutOfRange)
    );
}
