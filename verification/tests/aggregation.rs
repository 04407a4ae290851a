use telemetry_core::numeric::Real;
use telemetry_core::record::DiscreteField;
use telemetry_core::record::TelemetryData;
use telemetry_core::window::TelemetryBuffer;

fn r(micros: i64) -> Real {
    Real::from_micros(micros)
}

/// A record with the given whole-unit `accel_x`, `gps_fix`, `rssi` and
/// `packet_number`; everything else zero.
fn sample(accel_x_units: i64, gps_fix: u8, rssi: i32, packet_number: u8) -> TelemetryData {
    TelemetryData {
        timestamp: b"12:00:00.000".to_vec(),
        accel_x: r(accel_x_units * 1_000_000),
        accel_y: r(0),
        accel_z: r(0),
        gyro_x: r(0),
        gyro_y: r(0),
        gyro_z: r(0),
        temp: r(0),
        press_alt: r(0),
        heading: r(0),
        ground_speed: r(0),
        gps_fix,
        gps_num_sats: 0,
        gps_3d_fix: 0,
        latitude: r(0),
        longitude: r(0),
        altitude: r(0),
        distance: r(0),
        packet_number,
        rssi,
        snr: r(0),
    }
}

#[test]
fn mean_of_three_is_two() {
    // zero interval: every insert emits over the records then held
    let mut w = TelemetryBuffer::new(10, 0, 0);
    assert!(w.add_data(sample(1, 0, 0, 1), 0).is_some());
    assert!(w.add_data(sample(2, 0, 0, 2), 0).is_some());
    let snap = w.add_data(sample(3, 0, 0, 3), 0).unwrap();
    assert_eq!(snap.accel_x.micros, 2_000_000);
    // pass-through channels come from the newest record
    assert_eq!(snap.packet_number, 3);
    assert_eq!(snap.timestamp, b"12:00:00.000".to_vec());
}

#[test]
fn window_eviction_keeps_capacity_and_drops_oldest() {
    let mut w = TelemetryBuffer::new(3, 1_000_000, 0);
    for (i, units) in [1i64, 2, 3, 10].iter().enumerate() {
        let emitted = w.add_data(sample(*units, 0, 0, i as u8), i as u64);
        assert!(emitted.is_none());
        assert!(w.len() <= 3);
    }
    assert_eq!(w.len(), 3);
    // the snapshot averages 2, 3 and 10 only: the evicted 1 contributes nothing
    let snap = w.compute_average().unwrap();
    assert_eq!(snap.accel_x.micros, 5_000_000);
}

#[test]
fn mode_picks_most_frequent_and_lowest_on_tie() {
    let mut w = TelemetryBuffer::new(10, 0, 0);
    w.add_data(sample(0, 1, 0, 0), 0);
    w.add_data(sample(0, 1, 0, 0), 0);
    let snap = w.add_data(sample(0, 2, 0, 0), 0).unwrap();
    assert_eq!(snap.gps_fix, 1);

    let mut tie = TelemetryBuffer::new(10, 0, 0);
    tie.add_data(sample(0, 2, 0, 0), 0);
    let snap = tie.add_data(sample(0, 1, 0, 0), 0).unwrap();
    assert_eq!(snap.gps_fix, 1);
    assert_eq!(tie.mode_u8(DiscreteField::GpsFix), 1);
}

#[test]
fn emission_gating_by_elapsed_time() {
    let mut w = TelemetryBuffer::new(10, 100, 0);
    // repeated inserts inside one interval: no snapshot
    assert!(w.add_data(sample(1, 0, 0, 0), 0).is_none());
    assert!(w.add_data(sample(1, 0, 0, 0), 50).is_none());
    assert!(w.add_data(sample(1, 0, 0, 0), 99).is_none());
    // the first insert at or past the interval emits exactly one
    assert!(w.add_data(sample(1, 0, 0, 0), 100).is_some());
    // the clock reset at 100: the next interval runs to 200
    assert!(w.add_data(sample(1, 0, 0, 0), 150).is_none());
    assert!(w.add_data(sample(1, 0, 0, 0), 199).is_none());
    assert!(w.add_data(sample(1, 0, 0, 0), 200).is_some());
}

#[test]
fn signal_strength_truncates_toward_zero() {
    // mean -59.6 truncates to -59, not -60
    let mut w = TelemetryBuffer::new(10, 0, 0);
    for rssi in [-60, -60, -60, -59, -59] {
        w.add_data(sample(0, 0, rssi, 0), 0);
    }
    let snap = w.compute_average().unwrap();
    assert_eq!(snap.rssi, -59);
    // and the positive direction truncates downward
    let mut p = TelemetryBuffer::new(10, 0, 0);
    for rssi in [60, 60, 60, 59, 59] {
        p.add_data(sample(0, 0, rssi, 0), 0);
    }
    assert_eq!(p.compute_average().unwrap().rssi, 59);
}

#[test]
fn negative_real_mean_truncates_toward_zero() {
    let mut w = TelemetryBuffer::new(10, 0, 0);
    // accel_x values -1, -1, 0: exact mean -2/3, truncated to -0.666666
    w.add_data(sample(-1, 0, 0, 0), 0);
    w.add_data(sample(-1, 0, 0, 0), 0);
    let snap = w.add_data(sample(0, 0, 0, 0), 0).unwrap();
    assert_eq!(snap.accel_x.micros, -666_666);
}

#[test]
fn capacity_one_window_tracks_newest_only() {
    let mut w = TelemetryBuffer::new(1, 0, 0);
    w.add_data(sample(5, 1, -10, 1), 0);
    let snap = w.add_data(sample(9, 2, -20, 2), 0).unwrap();
    assert_eq!(w.len(), 1);
    assert_eq!(snap.accel_x.micros, 9_000_000);
    assert_eq!(snap.gps_fix, 2);
    assert_eq!(snap.rssi, -20);
    assert_eq!(snap.packet_number, 2);
}

#[test]
fn empty_window_never_snapshots() {
    let w = TelemetryBuffer::new(10, 0, 0);
    assert_eq!(w.len(), 0);
    assert!(w.compute_average().is_none());
}
