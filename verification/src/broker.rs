//! The broker connection record of a configuration file.

use vstd::prelude::*;
use crate::json::{Json, JsonV, jv_members, obj_lookup, int_lexeme_value, num_as_u64};
use crate::bytes::bytes_eq;

verus! {

/// One broker connection target with its credentials.
#[derive(Debug, PartialEq, Eq)]
pub struct Broker {
    pub host: Vec<u8>,
    pub port: u16,
    pub topic: Vec<u8>,
    pub token_id: Vec<u8>,
    pub token: Vec<u8>,
    pub mqtt_version: Option<Vec<u8>>,
}

/// Mathematical model of a `Broker`.
pub struct BrokerV {
    pub host: Seq<u8>,
    pub port: u16,
    pub topic: Seq<u8>,
    pub token_id: Seq<u8>,
    pub token: Seq<u8>,
    pub mqtt_version: Option<Seq<u8>>,
}

impl Broker {
    /// The model of this record.
    pub open spec fn bv(self) -> BrokerV {
        BrokerV {
            host: self.host@,
            port: self.port,
            topic: self.topic@,
            token_id: self.token_id@,
            token: self.token@,
            mqtt_version: match self.mqtt_version {
                Some(v) => Some(v@),
                None => None,
            },
        }
    }
}

/// The key "host".
pub open spec fn key_host() -> Seq<u8> {
    seq![104u8, 111u8, 115u8, 116u8]
}

/// The key "port".
pub open spec fn key_port() -> Seq<u8> {
    seq![112u8, 111u8, 114u8, 116u8]
}

/// The key "topic".
pub open spec fn key_topic() -> Seq<u8> {
    seq![116u8, 111u8, 112u8, 105u8, 99u8]
}

/// The key "token_id".
pub open spec fn key_tid() -> Seq<u8> {
    seq![116u8, 111u8, 107u8, 101u8, 110u8, 95u8, 105u8, 100u8]
}

/// The key "token".
pub open spec fn key_token() -> Seq<u8> {
    seq![116u8, 111u8, 107u8, 101u8, 110u8]
}

/// The key "mqtt_version".
pub open spec fn key_mqtt_version() -> Seq<u8> {
    seq![109u8, 113u8, 116u8, 116u8, 95u8, 118u8, 101u8, 114u8, 115u8, 105u8, 111u8, 110u8]
}

/// A required string field: the member's text, or an error.
pub open spec fn str_of_jv(v: Option<JsonV>) -> Option<Seq<u8>> {
    match v {
        Some(JsonV::Str(s)) => Some(s),
        _ => None,
    }
}

/// A required 16-bit port number: a number member whose token is an
/// integer in range.
pub open spec fn port_of_jv(v: Option<JsonV>) -> Option<u16> {
    match v {
        Some(JsonV::Num(lex)) => match int_lexeme_value(lex) {
            Some(n) => if 0 <= n <= 65535 {
                Some(n as u16)
            } else {
                None
            },
            None => None,
        },
        _ => None,
    }
}

/// An optional string field: absent or null is no value, a string is
/// its text, anything else is an error.
pub open spec fn optstr_of_jv(v: Option<JsonV>) -> Option<Option<Seq<u8>>> {
    match v {
        None => Some(None),
        Some(JsonV::Null) => Some(None),
        Some(JsonV::Str(s)) => Some(Some(s)),
        _ => None,
    }
}

/// The broker record a JSON value denotes, if it matches the schema.
pub open spec fn broker_of_jv(j: JsonV) -> Option<BrokerV> {
    match j {
        JsonV::Obj(ms) => {
            let h = str_of_jv(obj_lookup(ms, key_host()));
            let p = port_of_jv(obj_lookup(ms, key_port()));
            let t = str_of_jv(obj_lookup(ms, key_topic()));
            let ti = str_of_jv(obj_lookup(ms, key_tid()));
            let tk = str_of_jv(obj_lookup(ms, key_token()));
            let mv = optstr_of_jv(obj_lookup(ms, key_mqtt_version()));
            if h is Some && p is Some && t is Some && ti is Some && tk is Some && mv is Some {
                Some(
                    BrokerV {
                        host: h->Some_0,
                        port: p->Some_0,
                        topic: t->Some_0,
                        token_id: ti->Some_0,
                        token: tk->Some_0,
                        mqtt_version: mv->Some_0,
                    },
                )
            } else {
                None
            }
        },
        _ => None,
    }
}

/// The six keys of the broker schema name six different fields.
proof fn lemma_broker_keys_distinct()
    ensures
        key_host() != key_port(),
        key_host() != key_topic(),
        key_host() != key_tid(),
        key_host() != key_token(),
        key_host() != key_mqtt_version(),
        key_port() != key_topic(),
        key_port() != key_tid(),
        key_port() != key_token(),
        key_port() != key_mqtt_version(),
        key_topic() != key_tid(),
        key_topic() != key_token(),
        key_topic() != key_mqtt_version(),
        key_tid() != key_token(),
        key_tid() != key_mqtt_version(),
        key_token() != key_mqtt_version(),
{
    assert(key_host()[0] == 104);
    assert(key_port()[0] == 112);
    assert(key_topic()[2] == 112);
    assert(key_token()[2] == 107);
    assert(key_host().len() == 4);
    assert(key_port().len() == 4);
    assert(key_topic().len() == 5);
    assert(key_tid().len() == 8);
    assert(key_token().len() == 5);
    assert(key_mqtt_version().len() == 12);
}

/// Reads a broker record out of a parsed JSON value.
pub fn broker_of_json(j: Json) -> (r: Option<Broker>)
    ensures
        (match r {
            Some(b) => broker_of_jv(j.jv()) == Some(b.bv()),
            None => broker_of_jv(j.jv()) is None,
        }),
{
    let ghost jval = j.jv();
    let ms = match j {
        Json::Obj(ms) => ms,
        _ => {
            return None;
        },
    };
    let ghost full = jv_members(ms@);
    let kh = key_host_vec();
    let kp = key_port_vec();
    let kt = key_topic_vec();
    let kti = key_tid_vec();
    let ktk = key_token_vec();
    let kmv = key_mqtt_version_vec();
    let mut rest = ms;
    let mut s0: Option<Json> = None;
    let mut s1: Option<Json> = None;
    let mut s2: Option<Json> = None;
    let mut s3: Option<Json> = None;
    let mut s4: Option<Json> = None;
    let mut s5: Option<Json> = None;
    while rest.len() > 0
        invariant
            obj_lookup(full, key_host()) == (match s0 {
                Some(v) => Some(v.jv()),
                None => obj_lookup(jv_members(rest@), key_host()),
            }),
            obj_lookup(full, key_port()) == (match s1 {
                Some(v) => Some(v.jv()),
                None => obj_lookup(jv_members(rest@), key_port()),
            }),
            obj_lookup(full, key_topic()) == (match s2 {
                Some(v) => Some(v.jv()),
                None => obj_lookup(jv_members(rest@), key_topic()),
            }),
            obj_lookup(full, key_tid()) == (match s3 {
                Some(v) => Some(v.jv()),
                None => obj_lookup(jv_members(rest@), key_tid()),
            }),
            obj_lookup(full, key_token()) == (match s4 {
                Some(v) => Some(v.jv()),
                None => obj_lookup(jv_members(rest@), key_token()),
            }),
            obj_lookup(full, key_mqtt_version()) == (match s5 {
                Some(v) => Some(v.jv()),
                None => obj_lookup(jv_members(rest@), key_mqtt_version()),
            }),
            kh@ == key_host(),
            kp@ == key_port(),
            kt@ == key_topic(),
            kti@ == key_tid(),
            ktk@ == key_token(),
            kmv@ == key_mqtt_version(),
        decreases rest@.len(),
    {
        let ghost before = rest@;
        let (k, v) = rest.remove(0);
        let ghost kv = k@;
        let ghost vv = v.jv();
        proof {
            lemma_broker_keys_distinct();
            assert(rest@ =~= before.drop_first());
            assert(jv_members(before).drop_first() =~= jv_members(before.drop_first()));
            assert(jv_members(before)[0] == (kv, vv));
        }
        if bytes_eq(&k, &kh) {
            if s0.is_none() {
                s0 = Some(v);
            }
        } else if bytes_eq(&k, &kp) {
            if s1.is_none() {
                s1 = Some(v);
            }
        } else if bytes_eq(&k, &kt) {
            if s2.is_none() {
                s2 = Some(v);
            }
        } else if bytes_eq(&k, &kti) {
            if s3.is_none() {
                s3 = Some(v);
            }
        } else if bytes_eq(&k, &ktk) {
            if s4.is_none() {
                s4 = Some(v);
            }
        } else if bytes_eq(&k, &kmv) {
            if s5.is_none() {
                s5 = Some(v);
            }
        }
    }
    proof {
        assert(jv_members(rest@).len() == 0);
    }
    let host = match s0 {
        Some(Json::Str(sv)) => sv,
        _ => {
            return None;
        },
    };
    let port: u16 = match s1 {
        Some(Json::Num(lex)) => match num_as_u64(&lex) {
            Some(v) => {
                if v <= 65535 {
                    v as u16
                } else {
                    return None;
                }
            },
            None => {
                return None;
            },
        },
        _ => {
            return None;
        },
    };
    let topic = match s2 {
        Some(Json::Str(sv)) => sv,
        _ => {
            return None;
        },
    };
    let token_id = match s3 {
        Some(Json::Str(sv)) => sv,
        _ => {
            return None;
        },
    };
    let token = match s4 {
        Some(Json::Str(sv)) => sv,
        _ => {
            return None;
        },
    };
    let mqtt_version: Option<Vec<u8>> = match s5 {
        None => None,
        Some(Json::Null) => None,
        Some(Json::Str(sv)) => Some(sv),
        _ => {
            return None;
        },
    };
    let b = Broker { host, port, topic, token_id, token, mqtt_version };
    proof {
        assert(broker_of_jv(jval) == Some(b.bv()));
    }
    Some(b)
}

/// The key "host" as a fresh vector.
fn key_host_vec() -> (r: Vec<u8>)
    ensures
        r@ == key_host(),
{
    let r = vec![104u8, 111u8, 115u8, 116u8];
    proof {
        assert(r@ =~= key_host());
    }
    r
}

/// The key "port" as a fresh vector.
fn key_port_vec() -> (r: Vec<u8>)
    ensures
        r@ == key_port(),
{
    let r = vec![112u8, 111u8, 114u8, 116u8];
    proof {
        assert(r@ =~= key_port());
    }
    r
}

/// The key "topic" as a fresh vector.
fn key_topic_vec() -> (r: Vec<u8>)
    ensures
        r@ == key_topic(),
{
    let r = vec![116u8, 111u8, 112u8, 105u8, 99u8];
    proof {
        assert(r@ =~= key_topic());
    }
    r
}

/// The key "token_id" as a fresh vector.
fn key_tid_vec() -> (r: Vec<u8>)
    ensures
        r@ == key_tid(),
{
    let r = vec![116u8, 111u8, 107u8, 101u8, 110u8, 95u8, 105u8, 100u8];
    proof {
        assert(r@ =~= key_tid());
    }
    r
}

/// The key "token" as a fresh vector.
fn key_token_vec() -> (r: Vec<u8>)
    ensures
        r@ == key_token(),
{
    let r = vec![116u8, 111u8, 107u8, 101u8, 110u8];
    proof {
        assert(r@ =~= key_token());
    }
    r
}

/// The key "mqtt_version" as a fresh vector.
fn key_mqtt_version_vec() -> (r: Vec<u8>)
    ensures
        r@ == key_mqtt_version(),
{
    let r = vec![109u8, 113u8, 116u8, 116u8, 95u8, 118u8, 101u8, 114u8, 115u8, 105u8, 111u8, 110u8];
    proof {
        assert(r@ =~= key_mqtt_version());
    }
    r
}

} // verus!
