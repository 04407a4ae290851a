use telemetry_core::correlator::Correlator;
use telemetry_core::decoder::parse_telemetry;
use telemetry_core::numeric::parse_real_bytes;
use telemetry_core::numeric::Real;
use telemetry_core::reassembler::Reassembler;

fn b(s: &str) -> Vec<u8> {
    s.as_bytes().to_vec()
}

const PAYLOAD: &str = "[12:00:00.123] 0.1,0.2,9.8,0.01,0.02,0.03,25.0,100.0,45.0,5.0,1,8,1,37.7,-122.4,10.0,123.4,7";

#[test]
fn reassembler_whole_buffer() {
    let mut r = Reassembler::new();
    let lines = r.push(&b("$one\r\ntwo\r\n\r\npart"));
    assert_eq!(lines, vec![b("one"), b("two")]);
    // the partial tail stays buffered until its terminator arrives
    let lines = r.push(&b("ial\r\n"));
    assert_eq!(lines, vec![b("partial")]);
}

#[test]
fn reassembler_chunk_boundary_invariance() {
    let stream = "$alpha\r\nbeta\r\n\r\n$\r\ngamma\r\ndelta";
    let whole: Vec<Vec<u8>> = {
        let mut r = Reassembler::new();
        r.push(&b(stream))
    };
    let bytes = b(stream);
    // every split point, including mid-terminator
    for cut in 0..=bytes.len() {
        let mut r = Reassembler::new();
        let mut got = r.push(&bytes[..cut].to_vec());
        got.extend(r.push(&bytes[cut..].to_vec()));
        assert_eq!(got, whole, "split at {cut}");
    }
    // one byte at a time
    let mut r = Reassembler::new();
    let mut got: Vec<Vec<u8>> = Vec::new();
    for byte in &bytes {
        got.extend(r.push(&vec![*byte]));
    }
    assert_eq!(got, whole);
}

#[test]
fn reassembler_strips_one_marker_only() {
    let mut r = Reassembler::new();
    let lines = r.push(&b("$$double\r\n"));
    assert_eq!(lines, vec![b("$double")]);
}

#[test]
fn decode_round_trip() {
    let rec = parse_telemetry(&b(PAYLOAD), -60, Real::from_micros(8_500_000)).unwrap();
    assert_eq!(rec.timestamp, b("12:00:00.123"));
    assert_eq!(rec.accel_x.micros, 100_000);
    assert_eq!(rec.accel_y.micros, 200_000);
    assert_eq!(rec.accel_z.micros, 9_800_000);
    assert_eq!(rec.gyro_x.micros, 10_000);
    assert_eq!(rec.gyro_y.micros, 20_000);
    assert_eq!(rec.gyro_z.micros, 30_000);
    assert_eq!(rec.temp.micros, 25_000_000);
    assert_eq!(rec.press_alt.micros, 100_000_000);
    assert_eq!(rec.heading.micros, 45_000_000);
    assert_eq!(rec.ground_speed.micros, 5_000_000);
    assert_eq!(rec.gps_fix, 1);
    assert_eq!(rec.gps_num_sats, 8);
    assert_eq!(rec.gps_3d_fix, 1);
    assert_eq!(rec.latitude.micros, 37_700_000);
    assert_eq!(rec.longitude.micros, -122_400_000);
    assert_eq!(rec.altitude.micros, 10_000_000);
    assert_eq!(rec.distance.micros, 123_400_000);
    assert_eq!(rec.packet_number, 7);
    assert_eq!(rec.rssi, -60);
    assert_eq!(rec.snr.micros, 8_500_000);
}

#[test]
fn decode_rejects_wrong_field_count() {
    // 17 fields
    let seventeen = "[12:00:00.123] 0.1,0.2,9.8,0.01,0.02,0.03,25.0,100.0,45.0,5.0,1,8,1,37.7,-122.4,10.0,123.4";
    assert!(parse_telemetry(&b(seventeen), -60, Real::from_micros(8_500_000)).is_none());
    // 19 fields
    let nineteen = "[12:00:00.123] 0.1,0.2,9.8,0.01,0.02,0.03,25.0,100.0,45.0,5.0,1,8,1,37.7,-122.4,10.0,123.4,7,9";
    assert!(parse_telemetry(&b(nineteen), -60, Real::from_micros(8_500_000)).is_none());
}

#[test]
fn decode_rejects_bad_field_and_split() {
    let bad_field = "[t] 0.1,x,9.8,0.01,0.02,0.03,25.0,100.0,45.0,5.0,1,8,1,37.7,-122.4,10.0,123.4,7";
    assert!(parse_telemetry(&b(bad_field), 0, Real::from_micros(0)).is_none());
    // discrete field out of byte range
    let big_byte = "[t] 0.1,0.2,9.8,0.01,0.02,0.03,25.0,100.0,45.0,5.0,256,8,1,37.7,-122.4,10.0,123.4,7";
    assert!(parse_telemetry(&b(big_byte), 0, Real::from_micros(0)).is_none());
    // no "] " separator at all, and a doubled one
    assert!(parse_telemetry(&b("no separator"), 0, Real::from_micros(0)).is_none());
    let doubled = "[t] again] 0.1,0.2,9.8,0.01,0.02,0.03,25.0,100.0,45.0,5.0,1,8,1,37.7,-122.4,10.0,123.4,7";
    assert!(parse_telemetry(&b(doubled), 0, Real::from_micros(0)).is_none());
}

#[test]
fn correlator_full_cycle() {
    let mut c = Correlator::new();
    assert!(c.feed_line(&b(&format!("Message: {PAYLOAD}"))).is_none());
    assert!(c.feed_line(&b("RSSI: -60")).is_none());
    let rec = c.feed_line(&b("Snr: 8.5")).unwrap();
    assert_eq!(rec.rssi, -60);
    assert_eq!(rec.snr.micros, 8_500_000);
    assert_eq!(rec.accel_x.micros, 100_000);
    assert_eq!(rec.packet_number, 7);
}

#[test]
fn correlator_ignores_stray_lines() {
    let mut c = Correlator::new();
    assert!(c.feed_line(&b("noise line")).is_none());
    assert!(c.feed_line(&b(&format!("Message: {PAYLOAD}"))).is_none());
    assert!(c.feed_line(&b("more noise")).is_none());
    assert!(c.feed_line(&b("RSSI: -61")).is_none());
    let rec = c.feed_line(&b("Snr: 2.25")).unwrap();
    assert_eq!(rec.rssi, -61);
    assert_eq!(rec.snr.micros, 2_250_000);
}

#[test]
fn correlator_malformed_then_valid() {
    let mut c = Correlator::new();
    // 17-field payload: the whole sample is dropped, slots still clear
    let seventeen = "[12:00:00.123] 0.1,0.2,9.8,0.01,0.02,0.03,25.0,100.0,45.0,5.0,1,8,1,37.7,-122.4,10.0,123.4";
    assert!(c.feed_line(&b(&format!("Message: {seventeen}"))).is_none());
    assert!(c.feed_line(&b("RSSI: -60")).is_none());
    assert!(c.feed_line(&b("Snr: 8.5")).is_none());
    // the next valid frame decodes normally: no cross-contamination
    assert!(c.feed_line(&b(&format!("Message: {PAYLOAD}"))).is_none());
    assert!(c.feed_line(&b("RSSI: -62")).is_none());
    let rec = c.feed_line(&b("Snr: 1.5")).unwrap();
    assert_eq!(rec.accel_x.micros, 100_000);
    assert_eq!(rec.rssi, -62);
}

#[test]
fn correlator_quality_without_strength_keeps_message() {
    let mut c = Correlator::new();
    assert!(c.feed_line(&b(&format!("Message: {PAYLOAD}"))).is_none());
    // quality arrives with no strength captured: abandoned, message kept
    assert!(c.feed_line(&b("Snr: 8.5")).is_none());
    // a later strength/quality pair combines with the stale message
    assert!(c.feed_line(&b("RSSI: -70")).is_none());
    let rec = c.feed_line(&b("Snr: 3.5")).unwrap();
    assert_eq!(rec.rssi, -70);
    assert_eq!(rec.snr.micros, 3_500_000);
    assert_eq!(rec.timestamp, b("12:00:00.123"));
}

#[test]
fn correlator_unparsable_strength_is_ignored() {
    let mut c = Correlator::new();
    assert!(c.feed_line(&b(&format!("Message: {PAYLOAD}"))).is_none());
    assert!(c.feed_line(&b("RSSI: loud")).is_none());
    // no strength was captured, so the quality line cannot complete
    assert!(c.feed_line(&b("Snr: 8.5")).is_none());
}

#[test]
fn correlator_strength_range_limits() {
    // the full i32 range is accepted
    let mut c = Correlator::new();
    c.feed_line(&b(&format!("Message: {PAYLOAD}")));
    c.feed_line(&b("RSSI: -2147483648"));
    let rec = c.feed_line(&b("Snr: 1.0")).unwrap();
    assert_eq!(rec.rssi, -2147483648);
    // one past the range does not parse, so the strength slot stays empty
    let mut d = Correlator::new();
    d.feed_line(&b(&format!("Message: {PAYLOAD}")));
    d.feed_line(&b("RSSI: 2147483648"));
    assert!(d.feed_line(&b("Snr: 1.0")).is_none());
}

#[test]
fn real_parser_exact_values() {
    assert_eq!(parse_real_bytes(&b("0.1")), Some(100_000));
    assert_eq!(parse_real_bytes(&b("-122.4")), Some(-122_400_000));
    assert_eq!(parse_real_bytes(&b("+3.25")), Some(3_250_000));
    assert_eq!(parse_real_bytes(&b("5.")), Some(5_000_000));
    assert_eq!(parse_real_bytes(&b(".5")), Some(500_000));
    assert_eq!(parse_real_bytes(&b("0.1234567")), Some(123_456));
    assert_eq!(parse_real_bytes(&b("")), None);
    assert_eq!(parse_real_bytes(&b(".")), None);
    assert_eq!(parse_real_bytes(&b("1.2.3")), None);
    assert_eq!(parse_real_bytes(&b("1e5")), None);
    assert_eq!(parse_real_bytes(&b("nan")), None);
}
