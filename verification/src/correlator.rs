//! Correlation of the three-line telemetry frame group.
//!
//! The device emits, in order, a message line, a signal-strength line and
//! a signal-quality line. Each slot keeps the most recent capture; a line
//! matching no expected prefix is ignored rather than an error. Parsing a
//! quality line completes the group: when a message and a strength are
//! both present the triple goes to the decoder and all slots clear; when
//! either is missing the attempt is silently abandoned and the message
//! slot deliberately keeps its stale text.

use vstd::prelude::*;

use crate::bytes::has_prefix;
use crate::bytes::starts_with;
use crate::bytes::subvec;
use crate::bytes::trim;
use crate::bytes::trim_spec;
use crate::decoder::parse_telemetry;
use crate::decoder::spec_parse_telemetry;
use crate::numeric::lemma_parse_real_bound;
use crate::numeric::parse_i32_bytes;
use crate::numeric::parse_i32_spec;
use crate::numeric::parse_real_bytes;
use crate::numeric::parse_real_spec;
use crate::numeric::Real;
use crate::record::record_model;
use crate::record::TelemetryData;

verus! {

/// The literal prefix of a message line: `"Message: "`.
pub open spec fn message_prefix() -> Seq<u8> {
    seq![77u8, 101u8, 115u8, 115u8, 97u8, 103u8, 101u8, 58u8, 32u8]
}

/// The literal prefix of a signal-strength line: `"RSSI: "`.
pub open spec fn strength_prefix() -> Seq<u8> {
    seq![82u8, 83u8, 83u8, 73u8, 58u8, 32u8]
}

/// The literal prefix of a signal-quality line: `"Snr: "`.
pub open spec fn quality_prefix() -> Seq<u8> {
    seq![83u8, 110u8, 114u8, 58u8, 32u8]
}

fn message_prefix_vec() -> (r: Vec<u8>)
    ensures
        r@ == message_prefix(),
{
    let mut r: Vec<u8> = Vec::new();
    r.push(77);
    r.push(101);
    r.push(115);
    r.push(115);
    r.push(97);
    r.push(103);
    r.push(101);
    r.push(58);
    r.push(32);
    proof {
        assert(r@ =~= message_prefix());
    }
    r
}

fn strength_prefix_vec() -> (r: Vec<u8>)
    ensures
        r@ == strength_prefix(),
{
    let mut r: Vec<u8> = Vec::new();
    r.push(82);
    r.push(83);
    r.push(83);
    r.push(73);
    r.push(58);
    r.push(32);
    proof {
        assert(r@ =~= strength_prefix());
    }
    r
}

fn quality_prefix_vec() -> (r: Vec<u8>)
    ensures
        r@ == quality_prefix(),
{
    let mut r: Vec<u8> = Vec::new();
    r.push(83);
    r.push(110);
    r.push(114);
    r.push(58);
    r.push(32);
    proof {
        assert(r@ =~= quality_prefix());
    }
    r
}

/// The three-slot state machine that groups message, signal-strength and
/// signal-quality lines into one decoded sample.
pub struct Correlator {
    message: Vec<u8>,
    strength: Option<i32>,
    quality: Option<Real>,
}

impl Correlator {
    /// The captured message text, empty when none is pending.
    pub closed spec fn pending_message(&self) -> Seq<u8> {
        self.message@
    }

    /// The captured signal strength, if any.
    pub closed spec fn pending_strength(&self) -> Option<i32> {
        self.strength
    }

    /// The captured signal quality, if any.
    pub closed spec fn pending_quality(&self) -> Option<Real> {
        self.quality
    }

    pub fn new() -> (r: Correlator)
        ensures
            r.pending_message() == Seq::<u8>::empty(),
            r.pending_strength() is None,
            r.pending_quality() is None,
    {
        let r = Correlator { message: Vec::new(), strength: None, quality: None };
        proof {
            assert(r.message@ =~= Seq::<u8>::empty());
        }
        r
    }

    /// Feeds one reassembled line. A message or strength line overwrites
    /// its slot; a quality line that parses completes the group when a
    /// message and a strength are present, handing the triple to the
    /// decoder and clearing every slot; otherwise nothing is emitted and
    /// only the quality slot is written. Any other line changes nothing.
    pub fn feed_line(&mut self, line: &Vec<u8>) -> (r: Option<TelemetryData>)
        ensures
            ({
                let t = trim_spec(line@);
                let is_msg = starts_with(t, message_prefix());
                let is_str = !is_msg && starts_with(t, strength_prefix());
                let is_qual = !is_msg && !is_str && starts_with(t, quality_prefix());
                &&& (is_msg ==> {
                    &&& final(self).pending_message() == t.skip(message_prefix().len() as int)
                    &&& final(self).pending_strength() == old(self).pending_strength()
                    &&& final(self).pending_quality() == old(self).pending_quality()
                    &&& r is None
                })
                &&& (is_str ==> {
                    let p = parse_i32_spec(trim_spec(t.skip(strength_prefix().len() as int)));
                    &&& final(self).pending_message() == old(self).pending_message()
                    &&& final(self).pending_strength() == (if p is Some {
                        p
                    } else {
                        old(self).pending_strength()
                    })
                    &&& final(self).pending_quality() == old(self).pending_quality()
                    &&& r is None
                })
                &&& (is_qual ==> {
                    let p = parse_real_spec(trim_spec(t.skip(quality_prefix().len() as int)));
                    &&& (p is None ==> {
                        &&& final(self).pending_message() == old(self).pending_message()
                        &&& final(self).pending_strength() == old(self).pending_strength()
                        &&& final(self).pending_quality() == old(self).pending_quality()
                        &&& r is None
                    })
                    &&& (p is Some ==> {
                        let complete = old(self).pending_message().len() > 0 && old(
                            self,
                        ).pending_strength() is Some;
                        &&& (complete ==> {
                            let decoded = spec_parse_telemetry(
                                old(self).pending_message(),
                                old(self).pending_strength()->0,
                                p->0,
                            );
                            &&& (r is Some <==> decoded is Some)
                            &&& (r is Some ==> record_model(r->0) == decoded->0 && r->0.wf())
                            &&& final(self).pending_message() == Seq::<u8>::empty()
                            &&& final(self).pending_strength() is None
                            &&& final(self).pending_quality() is None
                        })
                        &&& (!complete ==> {
                            &&& r is None
                            &&& final(self).pending_message() == old(self).pending_message()
                            &&& final(self).pending_strength() == old(self).pending_strength()
                            &&& final(self).pending_quality() is Some
                            &&& final(self).pending_quality()->0.micros == p->0
                        })
                    })
                })
                &&& (!is_msg && !is_str && !is_qual ==> {
                    &&& final(self).pending_message() == old(self).pending_message()
                    &&& final(self).pending_strength() == old(self).pending_strength()
                    &&& final(self).pending_quality() == old(self).pending_quality()
                    &&& r is None
                })
            }),
    {
        let t = trim(line);
        let mp = message_prefix_vec();
        if has_prefix(&t, &mp) {
            let rest = subvec(&t, mp.len(), t.len());
            proof {
                assert(rest@ =~= trim_spec(line@).skip(message_prefix().len() as int));
            }
            self.message = rest;
            return None;
        }
        let sp = strength_prefix_vec();
        if has_prefix(&t, &sp) {
            let tmp = subvec(&t, sp.len(), t.len());
            proof {
                assert(tmp@ =~= trim_spec(line@).skip(strength_prefix().len() as int));
            }
            let rest = trim(&tmp);
            match parse_i32_bytes(&rest) {
                Some(v) => {
                    self.strength = Some(v);
                },
                None => {},
            }
            return None;
        }
        let qp = quality_prefix_vec();
        if has_prefix(&t, &qp) {
            let tmp = subvec(&t, qp.len(), t.len());
            proof {
                assert(tmp@ =~= trim_spec(line@).skip(quality_prefix().len() as int));
            }
            let rest = trim(&tmp);
            match parse_real_bytes(&rest) {
                Some(m) => {
                    proof {
                        lemma_parse_real_bound(rest@);
                    }
                    let q = Real::from_micros(m);
                    if self.message.len() > 0 && self.strength.is_some() {
                        let sv = self.strength.unwrap();
                        let decoded = parse_telemetry(&self.message, sv, q);
                        self.message = Vec::new();
                        self.strength = None;
                        self.quality = None;
                        proof {
                            assert(self.message@ =~= Seq::<u8>::empty());
                        }
                        return decoded;
                    } else {
                        self.quality = Some(q);
                        return None;
                    }
                },
                None => {
                    return None;
                },
            }
        }
        None
    }
}

} // verus!
