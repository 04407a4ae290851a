//! Decoding one correlated frame group into a typed telemetry record.
//!
//! The message carries a bracketed timestamp, the separator `"] "`, then
//! exactly eighteen comma-separated numeric fields. Decoding is
//! all-or-nothing: one wrong split, a wrong field count or one field that
//! fails numeric parsing rejects the whole sample.

use vstd::prelude::*;

use crate::bytes::find_pair;
use crate::bytes::find_pair_from;
use crate::bytes::split_byte;
use crate::bytes::split_on;
use crate::bytes::subvec;
use crate::bytes::trim;
use crate::bytes::trim_spec;
use crate::bytes::views;
use crate::numeric::lemma_parse_real_bound;
use crate::numeric::parse_real_bytes;
use crate::numeric::parse_real_spec;
use crate::numeric::parse_u8_bytes;
use crate::numeric::parse_u8_spec;
use crate::numeric::Real;
use crate::record::record_model;
use crate::record::RecordModel;
use crate::record::TelemetryData;

verus! {

/// The timestamp text: the part before the separator, without one leading
/// opening bracket.
pub open spec fn strip_bracket(s: Seq<u8>) -> Seq<u8> {
    if s.len() > 0 && s[0] == 91 {
        s.drop_first()
    } else {
        s
    }
}

pub open spec fn spec_field_real(fields: Seq<Seq<u8>>, i: int) -> Option<int> {
    parse_real_spec(trim_spec(fields[i]))
}

pub open spec fn spec_field_u8(fields: Seq<Seq<u8>>, i: int) -> Option<u8> {
    parse_u8_spec(trim_spec(fields[i]))
}

/// All eighteen payload fields parse as their declared type.
pub open spec fn fields_ok(fields: Seq<Seq<u8>>) -> bool {
    &&& spec_field_real(fields, 0) is Some
    &&& spec_field_real(fields, 1) is Some
    &&& spec_field_real(fields, 2) is Some
    &&& spec_field_real(fields, 3) is Some
    &&& spec_field_real(fields, 4) is Some
    &&& spec_field_real(fields, 5) is Some
    &&& spec_field_real(fields, 6) is Some
    &&& spec_field_real(fields, 7) is Some
    &&& spec_field_real(fields, 8) is Some
    &&& spec_field_real(fields, 9) is Some
    &&& spec_field_u8(fields, 10) is Some
    &&& spec_field_u8(fields, 11) is Some
    &&& spec_field_u8(fields, 12) is Some
    &&& spec_field_real(fields, 13) is Some
    &&& spec_field_real(fields, 14) is Some
    &&& spec_field_real(fields, 15) is Some
    &&& spec_field_real(fields, 16) is Some
    &&& spec_field_u8(fields, 17) is Some
}

/// What decoding a correlated `(message, rssi, snr)` triple yields: a full
/// record, or nothing. The separator `"] "` must occur exactly once, the
/// payload must split into exactly eighteen fields, and every field must
/// parse; `rssi` and `snr` are copied in unchanged.
pub open spec fn spec_parse_telemetry(msg: Seq<u8>, rssi: i32, snr: int) -> Option<RecordModel> {
    let i = find_pair(msg, 93, 32);
    if i == -1 {
        None
    } else if find_pair(msg.skip(i + 2), 93, 32) != -1 {
        None
    } else {
        let ts = strip_bracket(msg.take(i));
        let fields = split_byte(msg.skip(i + 2), 44);
        if fields.len() != 18 || !fields_ok(fields) {
            None
        } else {
            Some(
                RecordModel {
                    timestamp: ts,
                    accel_x: spec_field_real(fields, 0)->0,
                    accel_y: spec_field_real(fields, 1)->0,
                    accel_z: spec_field_real(fields, 2)->0,
                    gyro_x: spec_field_real(fields, 3)->0,
                    gyro_y: spec_field_real(fields, 4)->0,
                    gyro_z: spec_field_real(fields, 5)->0,
                    temp: spec_field_real(fields, 6)->0,
                    press_alt: spec_field_real(fields, 7)->0,
                    heading: spec_field_real(fields, 8)->0,
                    ground_speed: spec_field_real(fields, 9)->0,
                    gps_fix: spec_field_u8(fields, 10)->0,
                    gps_num_sats: spec_field_u8(fields, 11)->0,
                    gps_3d_fix: spec_field_u8(fields, 12)->0,
                    latitude: spec_field_real(fields, 13)->0,
                    longitude: spec_field_real(fields, 14)->0,
                    altitude: spec_field_real(fields, 15)->0,
                    distance: spec_field_real(fields, 16)->0,
                    packet_number: spec_field_u8(fields, 17)->0,
                    rssi: rssi as int,
                    snr: snr,
                },
            )
        }
    }
}

/// Parses one real-valued payload field, trimmed, into fixed point.
fn real_field(fields: &Vec<Vec<u8>>, i: usize) -> (r: Option<Real>)
    requires
        i < fields@.len(),
    ensures
        ({
            let sf = spec_field_real(views(fields@), i as int);
            &&& (r is Some <==> sf is Some)
            &&& (r is Some ==> r->0.micros == sf->0 && r->0.wf())
        }),
{
    let t = trim(&fields[i]);
    match parse_real_bytes(&t) {
        Some(m) => {
            proof {
                lemma_parse_real_bound(trim_spec(fields@[i as int]@));
            }
            Some(Real::from_micros(m))
        },
        None => None,
    }
}

/// Parses one discrete payload field, trimmed, into a byte.
fn u8_field(fields: &Vec<Vec<u8>>, i: usize) -> (r: Option<u8>)
    requires
        i < fields@.len(),
    ensures
        r == spec_field_u8(views(fields@), i as int),
{
    let t = trim(&fields[i]);
    parse_u8_bytes(&t)
}

/// Decodes one correlated frame group; all-or-nothing, no side effects.
#[verifier::rlimit(100)]
pub fn parse_telemetry(message: &Vec<u8>, rssi: i32, snr: Real) -> (r: Option<TelemetryData>)
    requires
        snr.wf(),
    ensures
        r is Some <==> spec_parse_telemetry(message@, rssi, snr.micros as int) is Some,
        r is Some ==> record_model(r->0) == spec_parse_telemetry(
            message@,
            rssi,
            snr.micros as int,
        )->0 && r->0.wf(),
{
    proof {
        assert(message@.skip(0) =~= message@);
    }
    let n = message.len();
    let sep = match find_pair_from(message, 93, 32, 0) {
        Some(s) => s,
        None => {
            return None;
        },
    };
    if find_pair_from(message, 93, 32, sep + 2).is_some() {
        return None;
    }
    let ts_part = subvec(message, 0, sep);
    proof {
        assert(ts_part@ =~= message@.take(sep as int));
    }
    let ts = if ts_part.len() > 0 && ts_part[0] == 91 {
        let stripped = subvec(&ts_part, 1, ts_part.len());
        proof {
            assert(stripped@ =~= ts_part@.drop_first());
        }
        stripped
    } else {
        ts_part
    };
    let data = subvec(message, sep + 2, message.len());
    proof {
        assert(data@ =~= message@.skip(sep + 2));
    }
    let fields = split_on(&data, 44);
    let ghost sfields = split_byte(message@.skip(sep + 2), 44);
    proof {
        assert(fields@.len() == views(fields@).len());
    }
    if fields.len() != 18 {
        return None;
    }
    let accel_x = match real_field(&fields, 0) {
        Some(x) => x,
        None => {
            return None;
        },
    };
    let accel_y = match real_field(&fields, 1) {
        Some(x) => x,
        None => {
            return None;
        },
    };
    let accel_z = match real_field(&fields, 2) {
        Some(x) => x,
        None => {
            return None;
        },
    };
    let gyro_x = match real_field(&fields, 3) {
        Some(x) => x,
        None => {
            return None;
        },
    };
    let gyro_y = match real_field(&fields, 4) {
        Some(x) => x,
        None => {
            return None;
        },
    };
    let gyro_z = match real_field(&fields, 5) {
        Some(x) => x,
        None => {
            return None;
        },
    };
    let temp = match real_field(&fields, 6) {
        Some(x) => x,
        None => {
            return None;
        },
    };
    let press_alt = match real_field(&fields, 7) {
        Some(x) => x,
        None => {
            return None;
        },
    };
    let heading = match real_field(&fields, 8) {
        Some(x) => x,
        None => {
            return None;
        },
    };
    let ground_speed = match real_field(&fields, 9) {
        Some(x) => x,
        None => {
            return None;
        },
    };
    let gps_fix = match u8_field(&fields, 10) {
        Some(x) => x,
        None => {
            return None;
        },
    };
    let gps_num_sats = match u8_field(&fields, 11) {
        Some(x) => x,
        None => {
            return None;
        },
    };
    let gps_3d_fix = match u8_field(&fields, 12) {
        Some(x) => x,
        None => {
            return None;
        },
    };
    let latitude = match real_field(&fields, 13) {
        Some(x) => x,
        None => {
            return None;
        },
    };
    let longitude = match real_field(&fields, 14) {
        Some(x) => x,
        None => {
            return None;
        },
    };
    let altitude = match real_field(&fields, 15) {
        Some(x) => x,
        None => {
            return None;
        },
    };
    let distance = match real_field(&fields, 16) {
        Some(x) => x,
        None => {
            return None;
        },
    };
    let packet_number = match u8_field(&fields, 17) {
        Some(x) => x,
        None => {
            return None;
        },
    };
    let out = TelemetryData {
        timestamp: ts,
        accel_x,
        accel_y,
        accel_z,
        gyro_x,
        gyro_y,
        gyro_z,
        temp,
        press_alt,
        heading,
        ground_speed,
        gps_fix,
        gps_num_sats,
        gps_3d_fix,
        latitude,
        longitude,
        altitude,
        distance,
        packet_number,
        rssi,
        snr,
    };
    Some(out)
}

} // verus!
