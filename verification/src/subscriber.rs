//! The subscriber's configuration, its loader, and the decision taken
//! for every event of the subscription loop.

use vstd::prelude::*;
use crate::json::{Json, JsonV, jv_members, obj_lookup, p_doc, parse_document};
use crate::bytes::bytes_eq;
use crate::broker::{Broker, BrokerV, broker_of_jv, broker_of_json};
use crate::payload::{Payload, PayloadV, payload_of_jv, payload_of_json, payload_of_text};
use crate::config_keys::{key_broker, key_payload, key_broker_vec, key_payload_vec, LoadError};

verus! {

/// The subscriber's configuration: a broker and the payload whose
/// collection identifier may serve as a filter.
#[derive(Debug, PartialEq, Eq)]
pub struct Config {
    pub broker: Broker,
    pub payload: Payload,
}

/// Mathematical model of a subscriber `Config`.
pub struct ConfigV {
    pub broker: BrokerV,
    pub payload: PayloadV,
}

impl Config {
    /// The model of this configuration.
    pub open spec fn cv(self) -> ConfigV {
        ConfigV { broker: self.broker.bv(), payload: self.payload.pv() }
    }
}

/// The subscriber configuration a JSON value denotes, if it matches
/// the schema: required `broker` and `payload` records.
pub open spec fn config_of_jv(j: JsonV) -> Option<ConfigV> {
    match j {
        JsonV::Obj(ms) => {
            let b = match obj_lookup(ms, key_broker()) {
                Some(bj) => broker_of_jv(bj),
                None => None,
            };
            let p = match obj_lookup(ms, key_payload()) {
                Some(pj) => payload_of_jv(pj),
                None => None,
            };
            if b is Some && p is Some {
                Some(ConfigV { broker: b->Some_0, payload: p->Some_0 })
            } else {
                None
            }
        },
        _ => None,
    }
}

/// The subscriber configuration a whole document text denotes.
pub open spec fn config_of_text(s: Seq<u8>) -> Option<ConfigV> {
    match p_doc(s) {
        Some(j) => config_of_jv(j),
        None => None,
    }
}

/// Reads a subscriber configuration out of a parsed JSON value.
pub fn config_of_json(j: Json) -> (r: Option<Config>)
    ensures
        (match r {
            Some(c) => config_of_jv(j.jv()) == Some(c.cv()),
            None => config_of_jv(j.jv()) is None,
        }),
{
    let ghost jval = j.jv();
    let ms = match j {
        Json::Obj(ms) => ms,
        _ => {
            return None;
        },
    };
    let ghost full = jv_members(ms@);
    let kb = key_broker_vec();
    let kp = key_payload_vec();
    let mut rest = ms;
    let mut s0: Option<Json> = None;
    let mut s1: Option<Json> = None;
    while rest.len() > 0
        invariant
            obj_lookup(full, key_broker()) == (match s0 {
                Some(v) => Some(v.jv()),
                None => obj_lookup(jv_members(rest@), key_broker()),
            }),
            obj_lookup(full, key_payload()) == (match s1 {
                Some(v) => Some(v.jv()),
                None => obj_lookup(jv_members(rest@), key_payload()),
            }),
            kb@ == key_broker(),
            kp@ == key_payload(),
        decreases rest@.len(),
    {
        let ghost before = rest@;
        let (k, v) = rest.remove(0);
        let ghost kv = k@;
        let ghost vv = v.jv();
        proof {
            assert(rest@ =~= before.drop_first());
            assert(jv_members(before).drop_first() =~= jv_members(before.drop_first()));
            assert(jv_members(before)[0] == (kv, vv));
        }
        if bytes_eq(&k, &kb) {
            if s0.is_none() {
                s0 = Some(v);
            }
        } else if bytes_eq(&k, &kp) {
            if s1.is_none() {
                s1 = Some(v);
            }
        }
    }
    proof {
        assert(jv_members(rest@).len() == 0);
    }
    let broker = match s0 {
        Some(bj) => match broker_of_json(bj) {
            Some(b) => b,
            None => {
                return None;
            },
        },
        None => {
            return None;
        },
    };
    let payload = match s1 {
        Some(pj) => match payload_of_json(pj) {
            Some(p) => p,
            None => {
                return None;
            },
        },
        None => {
            return None;
        },
    };
    let c = Config { broker, payload };
    proof {
        assert(config_of_jv(jval) == Some(c.cv()));
    }
    Some(c)
}

/// Loads a subscriber configuration from the outcome of reading the
/// file, as the publisher's loader does.
pub fn load_config(read: Result<Vec<u8>, Vec<u8>>) -> (r: Result<Config, LoadError>)
    ensures
        (match read {
            Result::Err(msg) => r matches Result::Err(LoadError::IoError(m)) && m@ == msg@,
            Result::Ok(text) => (match config_of_text(text@) {
                Some(cv) => r matches Result::Ok(c) && c.cv() == cv,
                None => r matches Result::Err(LoadError::ParseError),
            }),
        }),
{
    match read {
        Result::Err(msg) => Result::Err(LoadError::IoError(msg)),
        Result::Ok(text) => {
            match parse_document(&text) {
                Some(j) => match config_of_json(j) {
                    Some(c) => Result::Ok(c),
                    None => Result::Err(LoadError::ParseError),
                },
                None => Result::Err(LoadError::ParseError),
            }
        },
    }
}

/// One event of the subscription loop, as the transport hands it over.
#[derive(Debug, PartialEq, Eq)]
pub enum SubEvent {
    /// An incoming publish packet with its body bytes.
    Publish(Vec<u8>),
    /// Any other incoming packet.
    OtherPacket,
    /// Polling the transport failed, with its message.
    PollError(Vec<u8>),
}

/// What the loop does with one event.
#[derive(Debug, PartialEq, Eq)]
pub enum SubAction {
    /// Print the payload the packet carried.
    PrintPayload(Payload),
    /// The body was not a payload: report it and keep listening.
    ReportParseFailure,
    /// A packet of another kind: log it and keep listening.
    LogPacket,
    /// A payload filtered out: stay silent and keep listening.
    Skip,
    /// The transport failed: report its message and stop.
    Stop(Vec<u8>),
}

/// Decides what to do with one event of the subscription loop.  With a
/// filter, only payloads whose collection identifier equals the filter
/// are printed; without one, every payload is.  A body that does not
/// parse never ends the loop; only a poll error does.
pub fn subscriber_step(e: SubEvent, filter: Option<&Vec<u8>>) -> (a: SubAction)
    ensures
        (match e {
            SubEvent::Publish(bytes) => (match payload_of_text(bytes@) {
                Some(pv) => (match filter {
                    Some(f) => {
                        if pv.collection_id == f@ {
                            a matches SubAction::PrintPayload(p) && p.pv() == pv
                        } else {
                            a is Skip
                        }
                    },
                    None => a matches SubAction::PrintPayload(p) && p.pv() == pv,
                }),
                None => a is ReportParseFailure,
            }),
            SubEvent::OtherPacket => a is LogPacket,
            SubEvent::PollError(m) => a matches SubAction::Stop(m2) && m2@ == m@,
        }),
        a is Stop <==> e is PollError,
{
    match e {
        SubEvent::Publish(bytes) => {
            match parse_document(&bytes) {
                Some(j) => match payload_of_json(j) {
                    Some(p) => {
                        match filter {
                            Some(f) => {
                                if bytes_eq(&p.collection_id, f) {
                                    SubAction::PrintPayload(p)
                                } else {
                                    SubAction::Skip
                                }
                            },
                            None => SubAction::PrintPayload(p),
                        }
                    },
                    None => SubAction::ReportParseFailure,
                },
                None => SubAction::ReportParseFailure,
            }
        },
        SubEvent::OtherPacket => SubAction::LogPacket,
        SubEvent::PollError(m) => SubAction::Stop(m),
    }
}

} // verus!
