//! The publisher's configuration, its loader, and the logic of the
//! publish run: how many copies to send, how far apart, and when the
//! event-draining loop is finished.

use vstd::prelude::*;
use crate::json::{Json, JsonV, jv_members, obj_lookup, p_doc, num_as_u64};
use crate::bytes::bytes_eq;
use crate::broker::{Broker, BrokerV, broker_of_jv, broker_of_json};
use crate::payload::{Payload, PayloadV, payload_of_jv, payload_of_json};
use crate::config_keys::{
    key_broker, key_payload, key_count, key_delay, key_broker_vec, key_payload_vec, key_count_vec,
    key_delay_vec, count_of_jv, LoadError,
};

verus! {

/// The publisher's configuration: a broker, the body to send, and how
/// many copies with what spacing.
#[derive(Debug, PartialEq, Eq)]
pub struct Config {
    pub broker: Broker,
    pub payload: Payload,
    pub count: Option<u64>,
    pub delay: Option<u64>,
}

/// Mathematical model of a publisher `Config`.
pub struct ConfigV {
    pub broker: BrokerV,
    pub payload: PayloadV,
    pub count: Option<u64>,
    pub delay: Option<u64>,
}

impl Config {
    /// The model of this configuration.
    pub open spec fn cv(self) -> ConfigV {
        ConfigV {
            broker: self.broker.bv(),
            payload: self.payload.pv(),
            count: self.count,
            delay: self.delay,
        }
    }
}

/// The publisher configuration a JSON value denotes, if it matches the
/// schema: required `broker` and `payload` records, optional
/// non-negative `count` and `delay`.
pub open spec fn config_of_jv(j: JsonV) -> Option<ConfigV> {
    match j {
        JsonV::Obj(ms) => {
            let b = match obj_lookup(ms, key_broker()) {
                Some(bj) => broker_of_jv(bj),
                None => None,
            };
            let p = match obj_lookup(ms, key_payload()) {
                Some(pj) => payload_of_jv(pj),
                None => None,
            };
            let c = count_of_jv(obj_lookup(ms, key_count()));
            let d = count_of_jv(obj_lookup(ms, key_delay()));
            if b is Some && p is Some && c is Some && d is Some {
                Some(
                    ConfigV {
                        broker: b->Some_0,
                        payload: p->Some_0,
                        count: c->Some_0,
                        delay: d->Some_0,
                    },
                )
            } else {
                None
            }
        },
        _ => None,
    }
}

/// The publisher configuration a whole document text denotes.
pub open spec fn config_of_text(s: Seq<u8>) -> Option<ConfigV> {
    match p_doc(s) {
        Some(j) => config_of_jv(j),
        None => None,
    }
}

/// Reads a publisher configuration out of a parsed JSON value.
pub fn config_of_json(j: Json) -> (r: Option<Config>)
    ensures
        (match r {
            Some(c) => config_of_jv(j.jv()) == Some(c.cv()),
            None => config_of_jv(j.jv()) is None,
        }),
{
    let ghost jval = j.jv();
    let ms = match j {
        Json::Obj(ms) => ms,
        _ => {
            return None;
        },
    };
    let ghost full = jv_members(ms@);
    let kb = key_broker_vec();
    let kp = key_payload_vec();
    let kc = key_count_vec();
    let kd = key_delay_vec();
    let mut rest = ms;
    let mut s0: Option<Json> = None;
    let mut s1: Option<Json> = None;
    let mut s2: Option<Json> = None;
    let mut s3: Option<Json> = None;
    while rest.len() > 0
        invariant
            obj_lookup(full, key_broker()) == (match s0 {
                Some(v) => Some(v.jv()),
                None => obj_lookup(jv_members(rest@), key_broker()),
            }),
            obj_lookup(full, key_payload()) == (match s1 {
                Some(v) => Some(v.jv()),
                None => obj_lookup(jv_members(rest@), key_payload()),
            }),
            obj_lookup(full, key_count()) == (match s2 {
                Some(v) => Some(v.jv()),
                None => obj_lookup(jv_members(rest@), key_count()),
            }),
            obj_lookup(full, key_delay()) == (match s3 {
                Some(v) => Some(v.jv()),
                None => obj_lookup(jv_members(rest@), key_delay()),
            }),
            kb@ == key_broker(),
            kp@ == key_payload(),
            kc@ == key_count(),
            kd@ == key_delay(),
        decreases rest@.len(),
    {
        let ghost before = rest@;
        let (k, v) = rest.remove(0);
        let ghost kv = k@;
        let ghost vv = v.jv();
        proof {
            assert(rest@ =~= before.drop_first());
            assert(jv_members(before).drop_first() =~= jv_members(before.drop_first()));
            assert(jv_members(before)[0] == (kv, vv));
        }
        if bytes_eq(&k, &kb) {
            if s0.is_none() {
                s0 = Some(v);
            }
        } else if bytes_eq(&k, &kp) {
            if s1.is_none() {
                s1 = Some(v);
            }
        } else if bytes_eq(&k, &kc) {
            if s2.is_none() {
                s2 = Some(v);
            }
        } else if bytes_eq(&k, &kd) {
            if s3.is_none() {
                s3 = Some(v);
            }
        }
    }
    proof {
        assert(jv_members(rest@).len() == 0);
    }
    let broker = match s0 {
        Some(bj) => match broker_of_json(bj) {
            Some(b) => b,
            None => {
                return None;
            },
        },
        None => {
            return None;
        },
    };
    let payload = match s1 {
        Some(pj) => match payload_of_json(pj) {
            Some(p) => p,
            None => {
                return None;
            },
        },
        None => {
            return None;
        },
    };
    let count: Option<u64> = match s2 {
        None => None,
        Some(Json::Null) => None,
        Some(Json::Num(lex)) => match num_as_u64(&lex) {
            Some(v) => Some(v),
            None => {
                return None;
            },
        },
        _ => {
            return None;
        },
    };
    let delay: Option<u64> = match s3 {
        None => None,
        Some(Json::Null) => None,
        Some(Json::Num(lex)) => match num_as_u64(&lex) {
            Some(v) => Some(v),
            None => {
                return None;
            },
        },
        _ => {
            return None;
        },
    };
    let c = Config { broker, payload, count, delay };
    proof {
        assert(config_of_jv(jval) == Some(c.cv()));
    }
    Some(c)
}

/// Loads a publisher configuration from the outcome of reading the
/// file: a read failure is reported as `IoError` with the reader's
/// message, a text that does not denote a configuration as
/// `ParseError`.
pub fn load_config(read: Result<Vec<u8>, Vec<u8>>) -> (r: Result<Config, LoadError>)
    ensures
        (match read {
            Result::Err(msg) => r matches Result::Err(LoadError::IoError(m)) && m@ == msg@,
            Result::Ok(text) => (match config_of_text(text@) {
                Some(cv) => r matches Result::Ok(c) && c.cv() == cv,
                None => r matches Result::Err(LoadError::ParseError),
            }),
        }),
{
    match read {
        Result::Err(msg) => Result::Err(LoadError::IoError(msg)),
        Result::Ok(text) => {
            match crate::json::parse_document(&text) {
                Some(j) => match config_of_json(j) {
                    Some(c) => Result::Ok(c),
                    None => Result::Err(LoadError::ParseError),
                },
                None => Result::Err(LoadError::ParseError),
            }
        },
    }
}

/// The number of copies a configuration asks for: a missing count or
/// one of zero or one means a single publish, anything larger is taken
/// as it stands.
pub open spec fn spec_effective_count(c: Option<u64>) -> u64 {
    match c {
        Some(k) => if k > 1 {
            k
        } else {
            1
        },
        None => 1,
    }
}

/// The number of copies to publish for this configuration.
pub fn effective_count(c: &Option<u64>) -> (r: u64)
    ensures
        r == spec_effective_count(*c),
        r >= 1,
{
    match c {
        Some(k) => if *k > 1 {
            *k
        } else {
            1
        },
        None => 1,
    }
}

/// The pause between publishes, in seconds: zero when absent.
pub open spec fn spec_effective_delay(d: Option<u64>) -> u64 {
    match d {
        Some(s) => s,
        None => 0,
    }
}

/// The pause between publishes for this configuration, in seconds.
pub fn effective_delay(d: &Option<u64>) -> (r: u64)
    ensures
        r == spec_effective_delay(*d),
{
    match d {
        Some(s) => *s,
        None => 0,
    }
}

/// One notification out of the transport's event stream, as the drain
/// loop sees it.
#[derive(Clone, Copy, PartialEq, Eq, Structural, Debug)]
pub enum DrainEvent {
    /// Any incoming packet: logged, not acted upon.
    Incoming,
    /// The transport reports one published message as sent.
    OutgoingPublish,
    /// Any other outgoing packet: logged, not acted upon.
    OutgoingOther,
    /// The background publish task failed and will send no more.
    PublishFailed,
}

/// What the drain loop should do after one event.
#[derive(Clone, Copy, PartialEq, Eq, Structural, Debug)]
pub enum DrainVerdict {
    /// Keep draining events.
    Continue,
    /// All awaited publishes were observed: report success and exit.
    Complete,
    /// The publish task failed: report the failure and exit.
    Failed,
}

/// The state of the event-draining loop: how many outgoing publishes
/// it has seen, out of how many it waits for, and whether the publish
/// task has failed.
#[derive(Clone, Copy, PartialEq, Eq, Structural, Debug)]
pub struct DrainState {
    pub published: u64,
    pub target: u64,
    pub failed: bool,
}

impl DrainState {
    /// The loop waits for at least one publish and never counts past
    /// its target.
    pub open spec fn inv(self) -> bool {
        1 <= self.target && self.published <= self.target
    }

    /// All awaited publishes have been observed.
    pub open spec fn done(self) -> bool {
        self.published == self.target
    }

    /// The run is over: every publish was observed, or the publish
    /// task failed and no more will come.
    pub open spec fn finished(self) -> bool {
        self.done() || self.failed
    }

    /// The state after one event: an outgoing publish counts, a task
    /// failure is recorded, everything else leaves the state unmoved.
    pub open spec fn spec_step(self, e: DrainEvent) -> DrainState {
        match e {
            DrainEvent::OutgoingPublish => DrainState {
                published: (self.published + 1) as u64,
                ..self
            },
            DrainEvent::PublishFailed => DrainState { failed: true, ..self },
            _ => self,
        }
    }

    /// A fresh drain loop waiting for `target` publishes.
    pub fn new(target: u64) -> (s: Self)
        requires
            target >= 1,
        ensures
            s.inv(),
            !s.finished(),
            s.published == 0,
            s.target == target,
            !s.failed,
    {
        DrainState { published: 0, target, failed: false }
    }

    /// Advances the loop by one event and says whether to go on, to
    /// exit successfully, or to exit on the task's failure.
    pub fn on_event(&mut self, e: DrainEvent) -> (r: DrainVerdict)
        requires
            old(self).inv(),
            !old(self).finished(),
        ensures
            *final(self) == old(self).spec_step(e),
            final(self).inv(),
            r is Complete <==> final(self).done(),
            r is Failed <==> final(self).failed,
            r is Continue <==> !final(self).finished(),
    {
        match e {
            DrainEvent::OutgoingPublish => {
                self.published = self.published + 1;
                if self.published == self.target {
                    DrainVerdict::Complete
                } else {
                    DrainVerdict::Continue
                }
            },
            DrainEvent::PublishFailed => {
                self.failed = true;
                DrainVerdict::Failed
            },
            _ => DrainVerdict::Continue,
        }
    }
}

/// Whether any event reports the publish task's failure.
pub open spec fn has_failure(events: Seq<DrainEvent>) -> bool
    decreases events.len(),
{
    if events.len() == 0 {
        false
    } else {
        events[0] is PublishFailed || has_failure(events.drop_first())
    }
}

/// How many of the events are outgoing-publish notifications.
pub open spec fn count_publishes(events: Seq<DrainEvent>) -> int
    decreases events.len(),
{
    if events.len() == 0 {
        0
    } else {
        (if events[0] is OutgoingPublish {
            1int
        } else {
            0int
        }) + count_publishes(events.drop_first())
    }
}

/// The state after a whole run of events.
pub open spec fn run_drain(s: DrainState, events: Seq<DrainEvent>) -> DrainState
    decreases events.len(),
{
    if events.len() == 0 {
        s
    } else {
        run_drain(s.spec_step(events[0]), events.drop_first())
    }
}

/// Law of the drain loop: over any event sequence that carries at most
/// the awaited number of outgoing-publish notifications, the loop
/// counts exactly those notifications — every other event leaves it
/// unmoved — it is done exactly when their number reaches the target,
/// and it records a failure exactly when some event reported one.
pub proof fn lemma_drain_counts(s: DrainState, events: Seq<DrainEvent>)
    requires
        s.inv(),
        s.published + count_publishes(events) <= s.target,
    ensures
        run_drain(s, events).published == s.published + count_publishes(events),
        run_drain(s, events).target == s.target,
        run_drain(s, events).inv(),
        run_drain(s, events).done() <==> count_publishes(events) == s.target - s.published,
        run_drain(s, events).failed <==> s.failed || has_failure(events),
    decreases events.len(),
{
    lemma_count_publishes_nonneg(events);
    if events.len() > 0 {
        lemma_count_publishes_nonneg(events.drop_first());
        lemma_drain_counts(s.spec_step(events[0]), events.drop_first());
    }
}

/// An event count is never negative.
proof fn lemma_count_publishes_nonneg(events: Seq<DrainEvent>)
    ensures
        count_publishes(events) >= 0,
    decreases events.len(),
{
    if events.len() > 0 {
        lemma_count_publishes_nonneg(events.drop_first());
    }
}

} // verus!
