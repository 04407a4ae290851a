//! The decoded telemetry record and its ghost image.

use vstd::prelude::*;

use crate::numeric::Real;

verus! {

/// One decoded telemetry sample. Real-valued channels are fixed-point
/// (`Real`); discrete channels are bytes; the timestamp is opaque text
/// carried through unparsed; `rssi` and `snr` arrive out of band from the
/// correlated frame group, not from the payload.
#[derive(Clone, Debug)]
pub struct TelemetryData {
    pub timestamp: Vec<u8>,
    pub accel_x: Real,
    pub accel_y: Real,
    pub accel_z: Real,
    pub gyro_x: Real,
    pub gyro_y: Real,
    pub gyro_z: Real,
    pub temp: Real,
    pub press_alt: Real,
    pub heading: Real,
    pub ground_speed: Real,
    pub gps_fix: u8,
    pub gps_num_sats: u8,
    pub gps_3d_fix: u8,
    pub latitude: Real,
    pub longitude: Real,
    pub altitude: Real,
    pub distance: Real,
    pub packet_number: u8,
    pub rssi: i32,
    pub snr: Real,
}

impl TelemetryData {
    /// Every real-valued channel stays inside the fixed-point range.
    pub open spec fn wf(&self) -> bool {
        &&& self.accel_x.wf()
        &&& self.accel_y.wf()
        &&& self.accel_z.wf()
        &&& self.gyro_x.wf()
        &&& self.gyro_y.wf()
        &&& self.gyro_z.wf()
        &&& self.temp.wf()
        &&& self.press_alt.wf()
        &&& self.heading.wf()
        &&& self.ground_speed.wf()
        &&& self.latitude.wf()
        &&& self.longitude.wf()
        &&& self.altitude.wf()
        &&& self.distance.wf()
        &&& self.snr.wf()
    }
}

/// Mathematical image of a record: sequences and unbounded integers,
/// real-valued channels as counts of millionths.
pub ghost struct RecordModel {
    pub timestamp: Seq<u8>,
    pub accel_x: int,
    pub accel_y: int,
    pub accel_z: int,
    pub gyro_x: int,
    pub gyro_y: int,
    pub gyro_z: int,
    pub temp: int,
    pub press_alt: int,
    pub heading: int,
    pub ground_speed: int,
    pub gps_fix: u8,
    pub gps_num_sats: u8,
    pub gps_3d_fix: u8,
    pub latitude: int,
    pub longitude: int,
    pub altitude: int,
    pub distance: int,
    pub packet_number: u8,
    pub rssi: int,
    pub snr: int,
}

pub open spec fn record_model(d: TelemetryData) -> RecordModel {
    RecordModel {
        timestamp: d.timestamp@,
        accel_x: d.accel_x.micros as int,
        accel_y: d.accel_y.micros as int,
        accel_z: d.accel_z.micros as int,
        gyro_x: d.gyro_x.micros as int,
        gyro_y: d.gyro_y.micros as int,
        gyro_z: d.gyro_z.micros as int,
        temp: d.temp.micros as int,
        press_alt: d.press_alt.micros as int,
        heading: d.heading.micros as int,
        ground_speed: d.ground_speed.micros as int,
        gps_fix: d.gps_fix,
        gps_num_sats: d.gps_num_sats,
        gps_3d_fix: d.gps_3d_fix,
        latitude: d.latitude.micros as int,
        longitude: d.longitude.micros as int,
        altitude: d.altitude.micros as int,
        distance: d.distance.micros as int,
        packet_number: d.packet_number,
        rssi: d.rssi as int,
        snr: d.snr.micros as int,
    }
}

/// The real-valued channels a snapshot averages.
#[derive(Clone, Copy, Debug, PartialEq, Eq, Structural)]
pub enum RealField {
    AccelX,
    AccelY,
    AccelZ,
    GyroX,
    GyroY,
    GyroZ,
    Temp,
    PressAlt,
    Heading,
    GroundSpeed,
    Latitude,
    Longitude,
    Altitude,
    Distance,
    Snr,
}

/// The discrete channels a snapshot takes the mode of.
#[derive(Clone, Copy, Debug, PartialEq, Eq, Structural)]
pub enum DiscreteField {
    GpsFix,
    GpsNumSats,
    Gps3dFix,
}

pub open spec fn real_micros(d: TelemetryData, f: RealField) -> int {
    match f {
        RealField::AccelX => d.accel_x.micros as int,
        RealField::AccelY => d.accel_y.micros as int,
        RealField::AccelZ => d.accel_z.micros as int,
        RealField::GyroX => d.gyro_x.micros as int,
        RealField::GyroY => d.gyro_y.micros as int,
        RealField::GyroZ => d.gyro_z.micros as int,
        RealField::Temp => d.temp.micros as int,
        RealField::PressAlt => d.press_alt.micros as int,
        RealField::Heading => d.heading.micros as int,
        RealField::GroundSpeed => d.ground_speed.micros as int,
        RealField::Latitude => d.latitude.micros as int,
        RealField::Longitude => d.longitude.micros as int,
        RealField::Altitude => d.altitude.micros as int,
        RealField::Distance => d.distance.micros as int,
        RealField::Snr => d.snr.micros as int,
    }
}

pub open spec fn discrete_value(d: TelemetryData, f: DiscreteField) -> u8 {
    match f {
        DiscreteField::GpsFix => d.gps_fix,
        DiscreteField::GpsNumSats => d.gps_num_sats,
        DiscreteField::Gps3dFix => d.gps_3d_fix,
    }
}

/// Every real-valued channel of a well-formed record is in range.
pub proof fn lemma_real_micros_wf(d: TelemetryData, f: RealField)
    requires
        d.wf(),
    ensures
        -crate::numeric::MICRO_LIMIT < real_micros(d, f) < crate::numeric::MICRO_LIMIT,
{
}

/// Reads one real-valued channel of a record.
pub fn get_real(d: &TelemetryData, f: RealField) -> (r: i64)
    ensures
        r == real_micros(*d, f),
{
    match f {
        RealField::AccelX => d.accel_x.micros,
        RealField::AccelY => d.accel_y.micros,
        RealField::AccelZ => d.accel_z.micros,
        RealField::GyroX => d.gyro_x.micros,
        RealField::GyroY => d.gyro_y.micros,
        RealField::GyroZ => d.gyro_z.micros,
        RealField::Temp => d.temp.micros,
        RealField::PressAlt => d.press_alt.micros,
        RealField::Heading => d.heading.micros,
        RealField::GroundSpeed => d.ground_speed.micros,
        RealField::Latitude => d.latitude.micros,
        RealField::Longitude => d.longitude.micros,
        RealField::Altitude => d.altitude.micros,
        RealField::Distance => d.distance.micros,
        RealField::Snr => d.snr.micros,
    }
}

/// Reads one discrete channel of a record.
pub fn get_discrete(d: &TelemetryData, f: DiscreteField) -> (r: u8)
    ensures
        r == discrete_value(*d, f),
{
    match f {
        DiscreteField::GpsFix => d.gps_fix,
        DiscreteField::GpsNumSats => d.gps_num_sats,
        DiscreteField::Gps3dFix => d.gps_3d_fix,
    }
}

} // verus!
