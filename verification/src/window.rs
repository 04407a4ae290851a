//! The bounded aggregation window and its rate-limited snapshots.
//!
//! The window keeps at most `capacity` records in insertion order, evicting
//! the oldest on overflow. Each insert checks a caller-supplied monotonic
//! clock: when at least one emission interval has elapsed since the last
//! snapshot, the clock resets and a snapshot is computed over the records
//! now held. Continuous channels take the arithmetic mean truncated toward
//! zero at millionth precision; discrete channels take the mode with ties
//! broken toward the lowest value; the timestamp and packet number pass
//! through from the newest record.

use vstd::arithmetic::div_mod::lemma_div_is_ordered;
use vstd::arithmetic::div_mod::lemma_div_multiples_vanish;
use vstd::arithmetic::div_mod::lemma_div_pos_is_pos;
use vstd::prelude::*;

use crate::bytes::copy_bytes;
use crate::numeric::Real;
use crate::numeric::MICRO_LIMIT;
use crate::record::discrete_value;
use crate::record::get_discrete;
use crate::record::get_real;
use crate::record::lemma_real_micros_wf;
use crate::record::real_micros;
use crate::record::record_model;
use crate::record::DiscreteField;
use crate::record::RealField;
use crate::record::RecordModel;
use crate::record::TelemetryData;

verus! {

/// Division truncating toward zero, the rounding every averaged channel
/// uses (not rounding to nearest).
pub open spec fn trunc_div(a: int, b: int) -> int {
    if a >= 0 {
        a / b
    } else {
        -((-a) / b)
    }
}

pub open spec fn sum_real(s: Seq<TelemetryData>, f: RealField) -> int
    decreases s.len(),
{
    if s.len() == 0 {
        0
    } else {
        sum_real(s.drop_last(), f) + real_micros(s.last(), f)
    }
}

pub open spec fn sum_rssi(s: Seq<TelemetryData>) -> int
    decreases s.len(),
{
    if s.len() == 0 {
        0
    } else {
        sum_rssi(s.drop_last()) + s.last().rssi
    }
}

/// Mean of one continuous channel, truncated toward zero.
pub open spec fn mean_real(s: Seq<TelemetryData>, f: RealField) -> int {
    trunc_div(sum_real(s, f), s.len() as int)
}

/// How often `v` occurs in one discrete channel across the records.
pub open spec fn count_val(s: Seq<TelemetryData>, f: DiscreteField, v: u8) -> int
    decreases s.len(),
{
    if s.len() == 0 {
        0
    } else {
        count_val(s.drop_last(), f, v) + if discrete_value(s.last(), f) == v {
            1int
        } else {
            0int
        }
    }
}

/// Scans candidate values upward, keeping the first value whose count is
/// strictly largest so far; ties therefore resolve to the lowest value.
pub open spec fn mode_scan(s: Seq<TelemetryData>, f: DiscreteField, v: int, best: u8) -> u8
    decreases 256 - v,
{
    if v < 0 || v >= 256 {
        best
    } else {
        mode_scan(
            s,
            f,
            v + 1,
            if count_val(s, f, v as u8) > count_val(s, f, best) {
                v as u8
            } else {
                best
            },
        )
    }
}

/// The statistical mode of one discrete channel, lowest value on ties.
pub open spec fn mode_of(s: Seq<TelemetryData>, f: DiscreteField) -> u8 {
    mode_scan(s, f, 1, 0)
}

proof fn lemma_mode_scan_props(s: Seq<TelemetryData>, f: DiscreteField, v: int, best: u8)
    requires
        1 <= v <= 256,
        (best as int) < v,
        forall|w: u8| (w as int) < v ==> #[trigger] count_val(s, f, w) <= count_val(s, f, best),
        forall|w: u8| w < best ==> #[trigger] count_val(s, f, w) < count_val(s, f, best),
    ensures
        ({
            let m = mode_scan(s, f, v, best);
            &&& forall|w: u8| #[trigger] count_val(s, f, w) <= count_val(s, f, m)
            &&& forall|w: u8| w < m ==> #[trigger] count_val(s, f, w) < count_val(s, f, m)
        }),
    decreases 256 - v,
{
    if v >= 256 {
        assert forall|w: u8| #[trigger] count_val(s, f, w) <= count_val(s, f, best) by {
            assert((w as int) < v);
        }
    } else {
        let nb = if count_val(s, f, v as u8) > count_val(s, f, best) {
            v as u8
        } else {
            best
        };
        assert forall|w: u8| (w as int) < v + 1 implies count_val(s, f, w) <= count_val(s, f, nb)
            by {
            if (w as int) < v {
                assert(count_val(s, f, w) <= count_val(s, f, best));
            }
        }
        assert forall|w: u8| w < nb implies count_val(s, f, w) < count_val(s, f, nb) by {
            if nb == v as u8 && w < nb {
                assert(count_val(s, f, w) <= count_val(s, f, best));
            }
        }
        lemma_mode_scan_props(s, f, v + 1, nb);
    }
}

/// Law (mode tie-break): the mode's count is maximal over the whole byte
/// domain, and every strictly smaller value has a strictly smaller count,
/// so equal counts resolve to the lowest value.
pub proof fn lemma_mode_props(s: Seq<TelemetryData>, f: DiscreteField)
    ensures
        forall|w: u8| #[trigger] count_val(s, f, w) <= count_val(s, f, mode_of(s, f)),
        forall|w: u8| w < mode_of(s, f) ==> #[trigger] count_val(s, f, w) < count_val(s, f, mode_of(s, f)),
{
    lemma_mode_scan_props(s, f, 1, 0);
}

/// The record sequence after one insert with FIFO eviction at `cap`.
pub open spec fn push_evict(s: Seq<TelemetryData>, d: TelemetryData, cap: int) -> Seq<
    TelemetryData,
> {
    if s.len() + 1 > cap {
        s.push(d).drop_first()
    } else {
        s.push(d)
    }
}

/// Law (window eviction): an insert at capacity keeps the length at
/// capacity and drops exactly the oldest record.
pub proof fn lemma_window_eviction(s: Seq<TelemetryData>, d: TelemetryData, cap: int)
    requires
        s.len() == cap,
        cap >= 1,
    ensures
        push_evict(s, d, cap).len() == cap,
        push_evict(s, d, cap) == s.drop_first().push(d),
{
    assert(s.push(d).drop_first() =~= s.drop_first().push(d));
}

/// The emission clock allows a snapshot once a full interval has elapsed.
pub open spec fn emission_due(last_emit: u64, interval: u64, now: u64) -> bool {
    now >= last_emit + interval
}

/// Law (emission gating): after an emission resets the clock to `t1`, an
/// insert strictly less than one interval later yields no snapshot, and
/// the first insert at or past one interval yields exactly one.
pub proof fn lemma_emission_gating(interval: u64, t1: u64, t2: u64)
    requires
        t2 >= t1,
    ensures
        t2 - t1 < interval ==> !emission_due(t1, interval, t2),
        t2 - t1 >= interval ==> emission_due(t1, interval, t2),
{
}

/// The snapshot over a non-empty record sequence.
pub open spec fn average_model(s: Seq<TelemetryData>) -> RecordModel {
    RecordModel {
        timestamp: s.last().timestamp@,
        accel_x: mean_real(s, RealField::AccelX),
        accel_y: mean_real(s, RealField::AccelY),
        accel_z: mean_real(s, RealField::AccelZ),
        gyro_x: mean_real(s, RealField::GyroX),
        gyro_y: mean_real(s, RealField::GyroY),
        gyro_z: mean_real(s, RealField::GyroZ),
        temp: mean_real(s, RealField::Temp),
        press_alt: mean_real(s, RealField::PressAlt),
        heading: mean_real(s, RealField::Heading),
        ground_speed: mean_real(s, RealField::GroundSpeed),
        gps_fix: mode_of(s, DiscreteField::GpsFix),
        gps_num_sats: mode_of(s, DiscreteField::GpsNumSats),
        gps_3d_fix: mode_of(s, DiscreteField::Gps3dFix),
        latitude: mean_real(s, RealField::Latitude),
        longitude: mean_real(s, RealField::Longitude),
        altitude: mean_real(s, RealField::Altitude),
        distance: mean_real(s, RealField::Distance),
        packet_number: s.last().packet_number,
        rssi: trunc_div(sum_rssi(s), s.len() as int),
        snr: mean_real(s, RealField::Snr),
    }
}

/// Sums one continuous channel over the records.
fn sum_real_exec(buffer: &Vec<TelemetryData>, f: RealField) -> (acc: i64)
    requires
        buffer@.len() <= 1000,
        forall|j: int| 0 <= j < buffer@.len() ==> buffer@[j].wf(),
    ensures
        acc == sum_real(buffer@, f),
        -(buffer@.len() as int) * 999999999999999 <= acc <= (buffer@.len() as int) * 999999999999999,
{
    let n = buffer.len();
    let mut acc: i64 = 0;
    let mut i: usize = 0;
    while i < n
        invariant
            i <= n == buffer@.len() <= 1000,
            forall|j: int| 0 <= j < buffer@.len() ==> buffer@[j].wf(),
            acc == sum_real(buffer@.take(i as int), f),
            -(i as int) * 999999999999999 <= acc <= (i as int) * 999999999999999,
        decreases n - i,
    {
        let x = get_real(&buffer[i], f);
        proof {
            lemma_real_micros_wf(buffer@[i as int], f);
            assert(buffer@.take(i + 1 as int).drop_last() =~= buffer@.take(i as int));
            assert(buffer@.take(i + 1 as int).last() == buffer@[i as int]);
        }
        acc = acc + x;
        i += 1;
    }
    proof {
        assert(buffer@.take(n as int) =~= buffer@);
    }
    acc
}

/// Mean of one continuous channel, truncated toward zero.
fn mean_real_exec(buffer: &Vec<TelemetryData>, f: RealField) -> (m: i64)
    requires
        1 <= buffer@.len() <= 1000,
        forall|j: int| 0 <= j < buffer@.len() ==> buffer@[j].wf(),
    ensures
        m == mean_real(buffer@, f),
        -MICRO_LIMIT < m < MICRO_LIMIT,
{
    let n = buffer.len();
    let acc = sum_real_exec(buffer, f);
    let k = n as u64;
    if acc >= 0 {
        let q = (acc as u64) / k;
        proof {
            lemma_div_is_ordered(acc as int, (n as int) * 999999999999999, n as int);
            lemma_div_multiples_vanish(999999999999999, n as int);
            assert(MICRO_LIMIT == 1000000000000000);
            lemma_div_pos_is_pos(acc as int, n as int);
        }
        q as i64
    } else {
        let mag = if acc == i64::MIN {
            // unreachable: the sum is bounded well inside i64
            proof {
                assert(acc >= -(1000int) * 999999999999999);
            }
            u64::MAX
        } else {
            (-acc) as u64
        };
        let q = mag / k;
        proof {
            lemma_div_is_ordered(mag as int, (n as int) * 999999999999999, n as int);
            lemma_div_multiples_vanish(999999999999999, n as int);
            assert(MICRO_LIMIT == 1000000000000000);
            lemma_div_pos_is_pos(mag as int, n as int);
        }
        -(q as i64)
    }
}

/// Sums the signal-strength channel over the records.
fn sum_rssi_exec(buffer: &Vec<TelemetryData>) -> (acc: i64)
    requires
        buffer@.len() <= 1000,
    ensures
        acc == sum_rssi(buffer@),
        -(buffer@.len() as int) * 2147483648 <= acc <= (buffer@.len() as int) * 2147483647,
{
    let n = buffer.len();
    let mut acc: i64 = 0;
    let mut i: usize = 0;
    while i < n
        invariant
            i <= n == buffer@.len() <= 1000,
            acc == sum_rssi(buffer@.take(i as int)),
            -(i as int) * 2147483648 <= acc <= (i as int) * 2147483647,
        decreases n - i,
    {
        let x = buffer[i].rssi;
        proof {
            assert(buffer@.take(i + 1 as int).drop_last() =~= buffer@.take(i as int));
            assert(buffer@.take(i + 1 as int).last() == buffer@[i as int]);
        }
        acc = acc + (x as i64);
        i += 1;
    }
    proof {
        assert(buffer@.take(n as int) =~= buffer@);
    }
    acc
}

/// Mean signal strength: averaged as a real and truncated toward zero to
/// its integer type, not rounded.
fn mean_rssi_exec(buffer: &Vec<TelemetryData>) -> (m: i32)
    requires
        1 <= buffer@.len() <= 1000,
    ensures
        m as int == trunc_div(sum_rssi(buffer@), buffer@.len() as int),
{
    let n = buffer.len();
    let acc = sum_rssi_exec(buffer);
    let k = n as u64;
    if acc >= 0 {
        let q = (acc as u64) / k;
        proof {
            lemma_div_is_ordered(acc as int, (n as int) * 2147483647, n as int);
            lemma_div_multiples_vanish(2147483647, n as int);
            lemma_div_pos_is_pos(acc as int, n as int);
        }
        q as i32
    } else {
        let mag = (-acc) as u64;
        let q = mag / k;
        proof {
            lemma_div_is_ordered(mag as int, (n as int) * 2147483648, n as int);
            lemma_div_multiples_vanish(2147483648, n as int);
            lemma_div_pos_is_pos(mag as int, n as int);
        }
        (-(q as i64)) as i32
    }
}

/// Counts one value of one discrete channel over the records.
fn count_discrete(buffer: &Vec<TelemetryData>, f: DiscreteField, v: u8) -> (c: usize)
    requires
        buffer@.len() <= 1000,
    ensures
        c == count_val(buffer@, f, v),
{
    let n = buffer.len();
    let mut c: usize = 0;
    let mut i: usize = 0;
    while i < n
        invariant
            i <= n == buffer@.len() <= 1000,
            c == count_val(buffer@.take(i as int), f, v),
            c <= i,
        decreases n - i,
    {
        proof {
            assert(buffer@.take(i + 1 as int).drop_last() =~= buffer@.take(i as int));
            assert(buffer@.take(i + 1 as int).last() == buffer@[i as int]);
        }
        if get_discrete(&buffer[i], f) == v {
            c += 1;
        }
        i += 1;
    }
    proof {
        assert(buffer@.take(n as int) =~= buffer@);
    }
    c
}

/// The mode of one discrete channel, scanning the byte domain upward so
/// ties break to the lowest value.
fn mode_discrete(buffer: &Vec<TelemetryData>, f: DiscreteField) -> (m: u8)
    requires
        buffer@.len() <= 1000,
    ensures
        m == mode_of(buffer@, f),
{
    let mut best: u8 = 0;
    let mut bc = count_discrete(buffer, f, 0);
    let mut v: usize = 1;
    while v < 256
        invariant
            1 <= v <= 256,
            (best as int) < v,
            buffer@.len() <= 1000,
            bc == count_val(buffer@, f, best),
            mode_of(buffer@, f) == mode_scan(buffer@, f, v as int, best),
        decreases 256 - v,
    {
        let c = count_discrete(buffer, f, v as u8);
        if c > bc {
            best = v as u8;
            bc = c;
        }
        v += 1;
    }
    best
}

/// A bounded, insertion-ordered window of decoded records with an
/// insert-triggered emission clock.
pub struct TelemetryBuffer {
    buffer: Vec<TelemetryData>,
    last_emit_ms: u64,
    emit_interval_ms: u64,
    buffer_size: usize,
}

impl TelemetryBuffer {
    /// The records currently held, oldest first.
    pub closed spec fn records(&self) -> Seq<TelemetryData> {
        self.buffer@
    }

    /// The configured capacity.
    pub closed spec fn capacity(&self) -> usize {
        self.buffer_size
    }

    /// The configured emission interval, in milliseconds.
    pub closed spec fn interval_ms(&self) -> u64 {
        self.emit_interval_ms
    }

    /// The clock reading at the last emission (or at creation).
    pub closed spec fn last_emit(&self) -> u64 {
        self.last_emit_ms
    }

    pub open spec fn wf(&self) -> bool {
        &&& 1 <= self.capacity() <= 1000
        &&& self.records().len() <= self.capacity()
        &&& forall|j: int| 0 <= j < self.records().len() ==> self.records()[j].wf()
    }

    /// A window of at most `buffer_size` records that may emit at most
    /// once per `emit_interval_ms`, starting its clock at `now_ms`.
    pub fn new(buffer_size: usize, emit_interval_ms: u64, now_ms: u64) -> (r: TelemetryBuffer)
        requires
            1 <= buffer_size <= 1000,
        ensures
            r.wf(),
            r.records() == Seq::<TelemetryData>::empty(),
            r.capacity() == buffer_size,
            r.interval_ms() == emit_interval_ms,
            r.last_emit() == now_ms,
    {
        let r = TelemetryBuffer {
            buffer: Vec::new(),
            last_emit_ms: now_ms,
            emit_interval_ms,
            buffer_size,
        };
        proof {
            assert(r.buffer@ =~= Seq::<TelemetryData>::empty());
        }
        r
    }

    /// How many records the window currently holds.
    pub fn len(&self) -> (n: usize)
        ensures
            n == self.records().len(),
    {
        self.buffer.len()
    }

    /// Appends a record, evicting the oldest at capacity; emits a snapshot
    /// exactly when a full interval has elapsed on the supplied monotonic
    /// clock, resetting the clock on emission.
    pub fn add_data(&mut self, data: TelemetryData, now_ms: u64) -> (r: Option<TelemetryData>)
        requires
            old(self).wf(),
            data.wf(),
            now_ms >= old(self).last_emit(),
        ensures
            final(self).wf(),
            final(self).capacity() == old(self).capacity(),
            final(self).interval_ms() == old(self).interval_ms(),
            final(self).records() == push_evict(
                old(self).records(),
                data,
                old(self).capacity() as int,
            ),
            final(self).last_emit() == if emission_due(
                old(self).last_emit(),
                old(self).interval_ms(),
                now_ms,
            ) {
                now_ms
            } else {
                old(self).last_emit()
            },
            r is Some <==> emission_due(old(self).last_emit(), old(self).interval_ms(), now_ms),
            r is Some ==> record_model(r->0) == average_model(final(self).records())
                && r->0.wf(),
    {
        let ghost s0 = self.buffer@;
        self.buffer.push(data);
        if self.buffer.len() > self.buffer_size {
            self.buffer.remove(0);
            proof {
                assert(self.buffer@ =~= s0.push(data).drop_first());
            }
        }
        proof {
            assert(self.buffer@ == push_evict(s0, data, self.buffer_size as int));
            assert forall|j: int| 0 <= j < self.buffer@.len() implies self.buffer@[j].wf() by {
                if self.buffer@.len() == s0.len() + 1 {
                    if j < s0.len() {
                        assert(self.buffer@[j] == s0[j]);
                    }
                } else {
                    if j < self.buffer@.len() - 1 {
                        assert(self.buffer@[j] == s0[j + 1]);
                    }
                }
            }
        }
        if now_ms - self.last_emit_ms >= self.emit_interval_ms {
            self.last_emit_ms = now_ms;
            let r = self.compute_average();
            r
        } else {
            None
        }
    }

    /// The snapshot over the records now held; nothing from an empty
    /// window.
    pub fn compute_average(&self) -> (r: Option<TelemetryData>)
        requires
            self.wf(),
        ensures
            r is Some <==> self.records().len() > 0,
            r is Some ==> record_model(r->0) == average_model(self.records()) && r->0.wf(),
    {
        let k = self.buffer.len();
        if k == 0 {
            return None;
        }
        let timestamp = copy_bytes(&self.buffer[k - 1].timestamp);
        let accel_x = Real::from_micros(mean_real_exec(&self.buffer, RealField::AccelX));
        let accel_y = Real::from_micros(mean_real_exec(&self.buffer, RealField::AccelY));
        let accel_z = Real::from_micros(mean_real_exec(&self.buffer, RealField::AccelZ));
        let gyro_x = Real::from_micros(mean_real_exec(&self.buffer, RealField::GyroX));
        let gyro_y = Real::from_micros(mean_real_exec(&self.buffer, RealField::GyroY));
        let gyro_z = Real::from_micros(mean_real_exec(&self.buffer, RealField::GyroZ));
        let temp = Real::from_micros(mean_real_exec(&self.buffer, RealField::Temp));
        let press_alt = Real::from_micros(mean_real_exec(&self.buffer, RealField::PressAlt));
        let heading = Real::from_micros(mean_real_exec(&self.buffer, RealField::Heading));
        let ground_speed = Real::from_micros(mean_real_exec(&self.buffer, RealField::GroundSpeed));
        let latitude = Real::from_micros(mean_real_exec(&self.buffer, RealField::Latitude));
        let longitude = Real::from_micros(mean_real_exec(&self.buffer, RealField::Longitude));
        let altitude = Real::from_micros(mean_real_exec(&self.buffer, RealField::Altitude));
        let distance = Real::from_micros(mean_real_exec(&self.buffer, RealField::Distance));
        let snr = Real::from_micros(mean_real_exec(&self.buffer, RealField::Snr));
        let gps_fix = mode_discrete(&self.buffer, DiscreteField::GpsFix);
        let gps_num_sats = mode_discrete(&self.buffer, DiscreteField::GpsNumSats);
        let gps_3d_fix = mode_discrete(&self.buffer, DiscreteField::Gps3dFix);
        let rssi = mean_rssi_exec(&self.buffer);
        let packet_number = self.buffer[k - 1].packet_number;
        let out = TelemetryData {
            timestamp,
            accel_x,
            accel_y,
            accel_z,
            gyro_x,
            gyro_y,
            gyro_z,
            temp,
            press_alt,
            heading,
            ground_speed,
            gps_fix,
            gps_num_sats,
            gps_3d_fix,
            latitude,
            longitude,
            altitude,
            distance,
            packet_number,
            rssi,
            snr,
        };
        proof {
            assert(self.buffer@.last() == self.buffer@[k - 1]);
        }
        Some(out)
    }

    /// The mode of one discrete channel over the records now held.
    pub fn mode_u8(&self, field: DiscreteField) -> (m: u8)
        requires
            self.wf(),
        ensures
            m == mode_of(self.records(), field),
    {
        mode_discrete(&self.buffer, field)
    }
}

} // verus!
