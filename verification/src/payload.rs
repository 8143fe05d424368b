//! The message body exchanged between publisher and subscriber, and its
//! JSON form.
//!
//! UUID-valued fields are held as their canonical text: 36 bytes with
//! hyphens at positions 8, 13, 18 and 23 and lower-case hexadecimal
//! digits elsewhere.  Parsing accepts upper-case digits and stores the
//! lowered form.

use vstd::prelude::*;
use crate::json::{
    Json, JsonV, jv_members, obj_lookup, p_doc, ser_val, wf_num, lemma_doc_round_trip,
    B_MINUS,
};
use crate::bytes::bytes_eq;

verus! {

/// A lower-case hexadecimal digit byte.
pub open spec fn is_hex_lower(b: u8) -> bool {
    (48 <= b <= 57) || (97 <= b <= 102)
}

/// A hexadecimal digit byte of either case.
pub open spec fn is_hex_any(b: u8) -> bool {
    (48 <= b <= 57) || (97 <= b <= 102) || (65 <= b <= 70)
}

/// A hyphen position of the canonical UUID text.
pub open spec fn is_uuid_hyphen_pos(i: int) -> bool {
    i == 8 || i == 13 || i == 18 || i == 23
}

/// Canonical UUID text: hyphens at the fixed spots, lower-case
/// hexadecimal digits elsewhere.
pub open spec fn is_uuid_text(s: Seq<u8>) -> bool {
    s.len() == 36 && (forall|i: int|
        0 <= i < 36 ==> (if is_uuid_hyphen_pos(i) {
            #[trigger] s[i] == B_MINUS
        } else {
            is_hex_lower(s[i])
        }))
}

/// Acceptable hyphenated UUID text: as the canonical form, but with
/// hexadecimal digits of either case.
pub open spec fn uuid_hyphenated_ok(s: Seq<u8>) -> bool {
    s.len() == 36 && (forall|i: int|
        0 <= i < 36 ==> (if is_uuid_hyphen_pos(i) {
            #[trigger] s[i] == B_MINUS
        } else {
            is_hex_any(s[i])
        }))
}

/// Acceptable simple UUID text: 32 hexadecimal digits of either case,
/// no hyphens.
pub open spec fn uuid_simple_ok(s: Seq<u8>) -> bool {
    s.len() == 32 && (forall|i: int| 0 <= i < 32 ==> is_hex_any(#[trigger] s[i]))
}

/// Acceptable UUID text: the hyphenated or the simple form.
pub open spec fn uuid_ok(s: Seq<u8>) -> bool {
    uuid_hyphenated_ok(s) || uuid_simple_ok(s)
}

/// The byte with upper-case hexadecimal letters lowered.
pub open spec fn lower_hex_byte(b: u8) -> u8 {
    if 65 <= b <= 70 {
        (b + 32) as u8
    } else {
        b
    }
}

/// The text with every upper-case hexadecimal letter lowered.
pub open spec fn lower_uuid(s: Seq<u8>) -> Seq<u8> {
    Seq::new(s.len(), |i: int| if 0 <= i < s.len() { lower_hex_byte(s[i]) } else { 0u8 })
}

/// The index in the simple form of a digit position of the hyphenated
/// form.
pub open spec fn unhyph(i: int) -> int {
    if i < 8 {
        i
    } else if i < 13 {
        i - 1
    } else if i < 18 {
        i - 2
    } else if i < 23 {
        i - 3
    } else {
        i - 4
    }
}

/// The hyphenated text a simple form denotes.
pub open spec fn hyphenate(s: Seq<u8>) -> Seq<u8> {
    Seq::new(
        36,
        |i: int|
            if is_uuid_hyphen_pos(i) {
                B_MINUS
            } else if 0 <= i < 36 && 0 <= unhyph(i) < s.len() {
                s[unhyph(i)]
            } else {
                0u8
            },
    )
}

/// The canonical text of an acceptable UUID: hyphens inserted when
/// absent, letters lowered.
pub open spec fn canon_uuid(s: Seq<u8>) -> Seq<u8> {
    if s.len() == 36 {
        lower_uuid(s)
    } else {
        lower_uuid(hyphenate(s))
    }
}

/// Checks a UUID text — hyphenated or simple, either case — and
/// returns its canonical form.
pub fn normalize_uuid(s: &Vec<u8>) -> (r: Option<Vec<u8>>)
    ensures
        (match r {
            Some(t) => uuid_ok(s@) && t@ == canon_uuid(s@) && is_uuid_text(t@),
            None => !uuid_ok(s@),
        }),
{
    if s.len() == 36 {
        let mut t: Vec<u8> = Vec::new();
        let mut i: usize = 0;
        while i < 36
            invariant
                i <= 36,
                s@.len() == 36,
                t@.len() == i,
                forall|k: int|
                    0 <= k < i ==> (if is_uuid_hyphen_pos(k) {
                        s@[k] == B_MINUS
                    } else {
                        is_hex_any(#[trigger] s@[k])
                    }),
                forall|k: int| 0 <= k < i ==> #[trigger] t@[k] == lower_hex_byte(s@[k]),
            decreases 36 - i,
        {
            let b = s[i];
            if i == 8 || i == 13 || i == 18 || i == 23 {
                if b != B_MINUS {
                    return None;
                }
                t.push(b);
            } else if (48 <= b && b <= 57) || (97 <= b && b <= 102) {
                t.push(b);
            } else if 65 <= b && b <= 70 {
                t.push(b + 32);
            } else {
                return None;
            }
            i = i + 1;
        }
        proof {
            assert(t@ =~= lower_uuid(s@));
        }
        Some(t)
    } else if s.len() == 32 {
        let mut t: Vec<u8> = Vec::new();
        let mut i: usize = 0;
        while i < 32
            invariant
                i <= 32,
                s@.len() == 32,
                t@.len() == i + (if i > 20 {
                    4int
                } else if i > 16 {
                    3int
                } else if i > 12 {
                    2int
                } else if i > 8 {
                    1int
                } else {
                    0int
                }),
                forall|k: int| 0 <= k < i ==> is_hex_any(#[trigger] s@[k]),
                forall|k: int|
                    0 <= k < t@.len() ==> #[trigger] t@[k] == lower_hex_byte(hyphenate(s@)[k]),
            decreases 32 - i,
        {
            let b = s[i];
            if !((48 <= b && b <= 57) || (97 <= b && b <= 102) || (65 <= b && b <= 70)) {
                return None;
            }
            if i == 8 || i == 12 || i == 16 || i == 20 {
                t.push(B_MINUS);
            }
            if 65 <= b && b <= 70 {
                t.push(b + 32);
            } else {
                t.push(b);
            }
            i = i + 1;
        }
        proof {
            assert(t@ =~= lower_uuid(hyphenate(s@)));
        }
        Some(t)
    } else {
        None
    }
}

/// The `user` record of a payload: two UUIDs.
#[derive(Debug, PartialEq, Eq)]
pub struct UserPayload {
    pub collection_id: Vec<u8>,
    pub id: Vec<u8>,
}

/// Mathematical model of a `UserPayload`.
pub struct UserPayloadV {
    pub collection_id: Seq<u8>,
    pub id: Seq<u8>,
}

impl UserPayload {
    /// The model of this record.
    pub open spec fn pv(self) -> UserPayloadV {
        UserPayloadV { collection_id: self.collection_id@, id: self.id@ }
    }

    /// Both fields hold canonical UUID text.
    pub open spec fn wf(self) -> bool {
        is_uuid_text(self.collection_id@) && is_uuid_text(self.id@)
    }
}

/// One message body: identifiers, an optional user record, and an
/// optional free-form data object.
#[derive(Debug, PartialEq, Eq)]
pub struct Payload {
    pub project_id: Vec<u8>,
    pub token_id: Vec<u8>,
    pub user: Option<UserPayload>,
    pub collection_id: Vec<u8>,
    pub data: Option<Vec<(Vec<u8>, Json)>>,
}

/// Mathematical model of a `Payload`.
pub struct PayloadV {
    pub project_id: Seq<u8>,
    pub token_id: Seq<u8>,
    pub user: Option<UserPayloadV>,
    pub collection_id: Seq<u8>,
    pub data: Option<Seq<(Seq<u8>, JsonV)>>,
}

impl Payload {
    /// The model of this body.
    pub open spec fn pv(self) -> PayloadV {
        PayloadV {
            project_id: self.project_id@,
            token_id: self.token_id@,
            user: match self.user {
                Some(u) => Some(u.pv()),
                None => None,
            },
            collection_id: self.collection_id@,
            data: match self.data {
                Some(d) => Some(jv_members(d@)),
                None => None,
            },
        }
    }

    /// Every UUID field holds canonical UUID text.
    pub open spec fn wf(self) -> bool {
        &&& is_uuid_text(self.project_id@)
        &&& is_uuid_text(self.token_id@)
        &&& match self.user {
            Some(u) => u.wf(),
            None => true,
        }
        &&& is_uuid_text(self.collection_id@)
    }
}

/// The key "project_id".
pub open spec fn key_project_id() -> Seq<u8> {
    seq![112u8, 114u8, 111u8, 106u8, 101u8, 99u8, 116u8, 95u8, 105u8, 100u8]
}

/// The key "token_id".
pub open spec fn key_token_id() -> Seq<u8> {
    seq![116u8, 111u8, 107u8, 101u8, 110u8, 95u8, 105u8, 100u8]
}

/// The key "user".
pub open spec fn key_user() -> Seq<u8> {
    seq![117u8, 115u8, 101u8, 114u8]
}

/// The key "collection_id".
pub open spec fn key_collection_id() -> Seq<u8> {
    seq![99u8, 111u8, 108u8, 108u8, 101u8, 99u8, 116u8, 105u8, 111u8, 110u8, 95u8, 105u8, 100u8]
}

/// The key "id".
pub open spec fn key_id() -> Seq<u8> {
    seq![105u8, 100u8]
}

/// The key "data".
pub open spec fn key_data() -> Seq<u8> {
    seq![100u8, 97u8, 116u8, 97u8]
}

/// The JSON value of an optional user record: its object, or null.
pub open spec fn user_jv(u: Option<UserPayloadV>) -> JsonV {
    match u {
        Some(up) => JsonV::Obj(
            seq![
                (key_collection_id(), JsonV::Str(up.collection_id)),
                (key_id(), JsonV::Str(up.id)),
            ],
        ),
        None => JsonV::Null,
    }
}

/// The JSON value of an optional data object: its object, or null.
pub open spec fn data_jv(d: Option<Seq<(Seq<u8>, JsonV)>>) -> JsonV {
    match d {
        Some(m) => JsonV::Obj(m),
        None => JsonV::Null,
    }
}

/// The JSON object a payload serializes to, fields in declaration
/// order, absent options written as null.
pub open spec fn payload_jv(p: PayloadV) -> JsonV {
    JsonV::Obj(
        seq![
            (key_project_id(), JsonV::Str(p.project_id)),
            (key_token_id(), JsonV::Str(p.token_id)),
            (key_user(), user_jv(p.user)),
            (key_collection_id(), JsonV::Str(p.collection_id)),
            (key_data(), data_jv(p.data)),
        ],
    )
}

/// Builds the JSON document value of a payload.
pub fn payload_to_json(p: Payload) -> (r: Json)
    ensures
        r.jv() == payload_jv(p.pv()),
{
    let ghost model = p.pv();
    let mut members: Vec<(Vec<u8>, Json)> = Vec::new();
    members.push((key_project_id_vec(), Json::Str(p.project_id)));
    members.push((key_token_id_vec(), Json::Str(p.token_id)));
    match p.user {
        Some(u) => {
            let ghost uv = u.pv();
            let mut um: Vec<(Vec<u8>, Json)> = Vec::new();
            um.push((key_collection_id_vec(), Json::Str(u.collection_id)));
            um.push((key_id_vec(), Json::Str(u.id)));
            let ghost umv = um@;
            let uj = Json::Obj(um);
            proof {
                assert(umv.len() == 2);
                assert(umv[0].0@ == key_collection_id());
                assert(umv[0].1.jv() == JsonV::Str(uv.collection_id));
                assert(umv[1].0@ == key_id());
                assert(umv[1].1.jv() == JsonV::Str(uv.id));
                assert(jv_members(umv) =~~= seq![
                    (key_collection_id(), JsonV::Str(uv.collection_id)),
                    (key_id(), JsonV::Str(uv.id)),
                ]);
                assert(model.user == Some(uv));
                assert(uj.jv() == user_jv(model.user));
            }
            members.push((key_user_vec(), uj));
        },
        None => {
            members.push((key_user_vec(), Json::Null));
        },
    }
    members.push((key_collection_id_vec(), Json::Str(p.collection_id)));
    match p.data {
        Some(d) => {
            let ghost dv = d@;
            let dj = Json::Obj(d);
            proof {
                assert(model.data == Some(jv_members(dv)));
                assert(dj.jv() == data_jv(model.data));
            }
            members.push((key_data_vec(), dj));
        },
        None => {
            members.push((key_data_vec(), Json::Null));
        },
    }
    let ghost membersv = members@;
    let r = Json::Obj(members);
    proof {
        assert(membersv.len() == 5);
        assert(membersv[0].0@ == key_project_id());
        assert(membersv[0].1.jv() == JsonV::Str(model.project_id));
        assert(membersv[1].0@ == key_token_id());
        assert(membersv[1].1.jv() == JsonV::Str(model.token_id));
        assert(membersv[2].0@ == key_user());
        assert(membersv[2].1.jv() == user_jv(model.user));
        assert(membersv[3].0@ == key_collection_id());
        assert(membersv[3].1.jv() == JsonV::Str(model.collection_id));
        assert(membersv[4].0@ == key_data());
        assert(membersv[4].1.jv() == data_jv(model.data));
        assert(jv_members(membersv) =~~= seq![
            (key_project_id(), JsonV::Str(model.project_id)),
            (key_token_id(), JsonV::Str(model.token_id)),
            (key_user(), user_jv(model.user)),
            (key_collection_id(), JsonV::Str(model.collection_id)),
            (key_data(), data_jv(model.data)),
        ]);
        assert(r.jv() == payload_jv(model));
    }
    r
}

/// The UUID text a looked-up JSON value denotes: a string field whose
/// bytes form an acceptable UUID, taken to canonical form.
pub open spec fn uuid_of_jv(v: Option<JsonV>) -> Option<Seq<u8>> {
    match v {
        Some(JsonV::Str(s)) => if uuid_ok(s) {
            Some(canon_uuid(s))
        } else {
            None
        },
        _ => None,
    }
}

/// The user record a looked-up JSON value denotes: absent or null is no
/// record, an object is read by its keys, anything else is an error.
pub open spec fn user_of_jv(v: Option<JsonV>) -> Option<Option<UserPayloadV>> {
    match v {
        None => Some(None),
        Some(JsonV::Null) => Some(None),
        Some(JsonV::Obj(ms)) => {
            let c = uuid_of_jv(obj_lookup(ms, key_collection_id()));
            let i = uuid_of_jv(obj_lookup(ms, key_id()));
            if c is Some && i is Some {
                Some(Some(UserPayloadV { collection_id: c->Some_0, id: i->Some_0 }))
            } else {
                None
            }
        },
        _ => None,
    }
}

/// The data object a looked-up JSON value denotes: absent or null is no
/// data, an object is taken as it stands, anything else is an error.
pub open spec fn data_of_jv(v: Option<JsonV>) -> Option<Option<Seq<(Seq<u8>, JsonV)>>> {
    match v {
        None => Some(None),
        Some(JsonV::Null) => Some(None),
        Some(JsonV::Obj(ms)) => Some(Some(ms)),
        _ => None,
    }
}

/// The payload a JSON document value denotes, if it matches the schema.
pub open spec fn payload_of_jv(j: JsonV) -> Option<PayloadV> {
    match j {
        JsonV::Obj(ms) => {
            let pr = uuid_of_jv(obj_lookup(ms, key_project_id()));
            let tk = uuid_of_jv(obj_lookup(ms, key_token_id()));
            let us = user_of_jv(obj_lookup(ms, key_user()));
            let co = uuid_of_jv(obj_lookup(ms, key_collection_id()));
            let da = data_of_jv(obj_lookup(ms, key_data()));
            if pr is Some && tk is Some && us is Some && co is Some && da is Some {
                Some(
                    PayloadV {
                        project_id: pr->Some_0,
                        token_id: tk->Some_0,
                        user: us->Some_0,
                        collection_id: co->Some_0,
                        data: da->Some_0,
                    },
                )
            } else {
                None
            }
        },
        _ => None,
    }
}

/// The payload a whole document text denotes, if any.
pub open spec fn payload_of_text(s: Seq<u8>) -> Option<PayloadV> {
    match p_doc(s) {
        Some(j) => payload_of_jv(j),
        None => None,
    }
}

/// Reads a payload out of a parsed JSON document value.
pub fn payload_of_json(j: Json) -> (r: Option<Payload>)
    ensures
        (match r {
            Some(p) => payload_of_jv(j.jv()) == Some(p.pv()) && p.wf(),
            None => payload_of_jv(j.jv()) is None,
        }),
{
    let ghost jval = j.jv();
    let ms = match j {
        Json::Obj(ms) => ms,
        _ => {
            return None;
        },
    };
    let ghost full = jv_members(ms@);
    let (s_project, s_token, s_user, s_collection, s_data) = scan_payload_members(ms);
    proof {
        assert(jval == JsonV::Obj(full));
    }
    let project_id = match s_project {
        Some(Json::Str(sv)) => match normalize_uuid(&sv) {
            Some(t) => t,
            None => {
                return None;
            },
        },
        _ => {
            return None;
        },
    };
    let token_id = match s_token {
        Some(Json::Str(sv)) => match normalize_uuid(&sv) {
            Some(t) => t,
            None => {
                return None;
            },
        },
        _ => {
            return None;
        },
    };
    let user: Option<UserPayload> = match s_user {
        None => None,
        Some(Json::Null) => None,
        Some(Json::Obj(um)) => {
            match user_of_members(um) {
                Some(u) => Some(u),
                None => {
                    return None;
                },
            }
        },
        _ => {
            return None;
        },
    };
    let collection_id = match s_collection {
        Some(Json::Str(sv)) => match normalize_uuid(&sv) {
            Some(t) => t,
            None => {
                return None;
            },
        },
        _ => {
            return None;
        },
    };
    let data: Option<Vec<(Vec<u8>, Json)>> = match s_data {
        None => None,
        Some(Json::Null) => None,
        Some(Json::Obj(dm)) => Some(dm),
        _ => {
            return None;
        },
    };
    let p = Payload { project_id, token_id, user, collection_id, data };
    proof {
        assert(payload_of_jv(jval) == Some(p.pv()));
    }
    Some(p)
}

/// Reads the two UUID fields of a user record object.
fn user_of_members(um: Vec<(Vec<u8>, Json)>) -> (r: Option<UserPayload>)
    ensures
        (match r {
            Some(u) => user_of_jv(Some(JsonV::Obj(jv_members(um@)))) == Some(Some(u.pv()))
                && u.wf(),
            None => user_of_jv(Some(JsonV::Obj(jv_members(um@)))) is None,
        }),
{
    let ghost full = jv_members(um@);
    let kc = key_collection_id_vec();
    let ki = key_id_vec();
    let mut rest = um;
    let mut s_col: Option<Json> = None;
    let mut s_id: Option<Json> = None;
    while rest.len() > 0
        invariant
            obj_lookup(full, key_collection_id()) == (match s_col {
                Some(v) => Some(v.jv()),
                None => obj_lookup(jv_members(rest@), key_collection_id()),
            }),
            obj_lookup(full, key_id()) == (match s_id {
                Some(v) => Some(v.jv()),
                None => obj_lookup(jv_members(rest@), key_id()),
            }),
            kc@ == key_collection_id(),
            ki@ == key_id(),
        decreases rest@.len(),
    {
        let ghost before = rest@;
        let (k, v) = rest.remove(0);
        let ghost kv = k@;
        let ghost vv = v.jv();
        proof {
            assert(rest@ =~= before.drop_first());
            assert(jv_members(before).drop_first() =~= jv_members(before.drop_first()));
            assert(jv_members(before)[0] == (kv, vv));
        }
        if bytes_eq(&k, &kc) {
            if s_col.is_none() {
                s_col = Some(v);
            }
        } else if bytes_eq(&k, &ki) {
            if s_id.is_none() {
                s_id = Some(v);
            }
        }
    }
    proof {
        assert(jv_members(rest@).len() == 0);
    }
    let collection_id = match s_col {
        Some(Json::Str(sv)) => match normalize_uuid(&sv) {
            Some(t) => t,
            None => {
                return None;
            },
        },
        _ => {
            return None;
        },
    };
    let id = match s_id {
        Some(Json::Str(sv)) => match normalize_uuid(&sv) {
            Some(t) => t,
            None => {
                return None;
            },
        },
        _ => {
            return None;
        },
    };
    Some(UserPayload { collection_id, id })
}

/// Scans a payload object's members into the five known fields; the
/// first occurrence of a key wins, unknown keys are ignored.
fn scan_payload_members(ms: Vec<(Vec<u8>, Json)>) -> (r: (
    Option<Json>,
    Option<Json>,
    Option<Json>,
    Option<Json>,
    Option<Json>,
))
    ensures
        obj_lookup(jv_members(ms@), key_project_id()) == (match r.0 {
            Some(v) => Some(v.jv()),
            None => None::<JsonV>,
        }),
        obj_lookup(jv_members(ms@), key_token_id()) == (match r.1 {
            Some(v) => Some(v.jv()),
            None => None::<JsonV>,
        }),
        obj_lookup(jv_members(ms@), key_user()) == (match r.2 {
            Some(v) => Some(v.jv()),
            None => None::<JsonV>,
        }),
        obj_lookup(jv_members(ms@), key_collection_id()) == (match r.3 {
            Some(v) => Some(v.jv()),
            None => None::<JsonV>,
        }),
        obj_lookup(jv_members(ms@), key_data()) == (match r.4 {
            Some(v) => Some(v.jv()),
            None => None::<JsonV>,
        }),
{
    let ghost full = jv_members(ms@);
    let kp = key_project_id_vec();
    let kt = key_token_id_vec();
    let ku = key_user_vec();
    let kc = key_collection_id_vec();
    let kd = key_data_vec();
    let mut rest = ms;
    let mut s0: Option<Json> = None;
    let mut s1: Option<Json> = None;
    let mut s2: Option<Json> = None;
    let mut s3: Option<Json> = None;
    let mut s4: Option<Json> = None;
    while rest.len() > 0
        invariant
            obj_lookup(full, key_project_id()) == (match s0 {
                Some(v) => Some(v.jv()),
                None => obj_lookup(jv_members(rest@), key_project_id()),
            }),
            obj_lookup(full, key_token_id()) == (match s1 {
                Some(v) => Some(v.jv()),
                None => obj_lookup(jv_members(rest@), key_token_id()),
            }),
            obj_lookup(full, key_user()) == (match s2 {
                Some(v) => Some(v.jv()),
                None => obj_lookup(jv_members(rest@), key_user()),
            }),
            obj_lookup(full, key_collection_id()) == (match s3 {
                Some(v) => Some(v.jv()),
                None => obj_lookup(jv_members(rest@), key_collection_id()),
            }),
            obj_lookup(full, key_data()) == (match s4 {
                Some(v) => Some(v.jv()),
                None => obj_lookup(jv_members(rest@), key_data()),
            }),
            kp@ == key_project_id(),
            kt@ == key_token_id(),
            ku@ == key_user(),
            kc@ == key_collection_id(),
            kd@ == key_data(),
        decreases rest@.len(),
    {
        let ghost before = rest@;
        let (k, v) = rest.remove(0);
        let ghost kv = k@;
        let ghost vv = v.jv();
        proof {
            assert(rest@ =~= before.drop_first());
            assert(jv_members(before).drop_first() =~= jv_members(before.drop_first()));
            assert(jv_members(before)[0] == (kv, vv));
        }
        if bytes_eq(&k, &kp) {
            if s0.is_none() {
                s0 = Some(v);
            }
        } else if bytes_eq(&k, &kt) {
            if s1.is_none() {
                s1 = Some(v);
            }
        } else if bytes_eq(&k, &ku) {
            if s2.is_none() {
                s2 = Some(v);
            }
        } else if bytes_eq(&k, &kc) {
            if s3.is_none() {
                s3 = Some(v);
            }
        } else if bytes_eq(&k, &kd) {
            if s4.is_none() {
                s4 = Some(v);
            }
        }
    }
    proof {
        assert(jv_members(rest@).len() == 0);
    }
    (s0, s1, s2, s3, s4)
}

/// Well-formedness of a payload model: every UUID field holds
/// canonical UUID text.
pub open spec fn pv_wf(p: PayloadV) -> bool {
    &&& is_uuid_text(p.project_id)
    &&& is_uuid_text(p.token_id)
    &&& match p.user {
        Some(u) => is_uuid_text(u.collection_id) && is_uuid_text(u.id),
        None => true,
    }
    &&& is_uuid_text(p.collection_id)
}

/// Canonical UUID text is acceptable as it stands and lowering leaves
/// it unchanged.
proof fn lemma_uuid_canonical(s: Seq<u8>)
    requires
        is_uuid_text(s),
    ensures
        uuid_ok(s),
        canon_uuid(s) == s,
{
    assert forall|i: int| 0 <= i < 36 implies (if is_uuid_hyphen_pos(i) {
        #[trigger] s[i] == B_MINUS
    } else {
        is_hex_any(s[i])
    }) by {
        if !is_uuid_hyphen_pos(i) {
            assert(is_hex_lower(s[i]));
        }
    }
    assert(uuid_hyphenated_ok(s));
    assert forall|i: int| 0 <= i < s.len() implies lower_uuid(s)[i] == #[trigger] s[i] by {
        if is_uuid_hyphen_pos(i) {
            assert(s[i] == B_MINUS);
        } else {
            assert(is_hex_lower(s[i]));
        }
    }
    assert(lower_uuid(s) =~= s);
    assert(canon_uuid(s) == lower_uuid(s));
}

/// The five payload keys name five different fields.
proof fn lemma_payload_keys_distinct()
    ensures
        key_project_id() != key_token_id(),
        key_project_id() != key_user(),
        key_project_id() != key_collection_id(),
        key_project_id() != key_data(),
        key_token_id() != key_user(),
        key_token_id() != key_collection_id(),
        key_token_id() != key_data(),
        key_user() != key_collection_id(),
        key_user() != key_data(),
        key_collection_id() != key_data(),
        key_collection_id() != key_id(),
{
    assert(key_project_id().len() == 10);
    assert(key_token_id().len() == 8);
    assert(key_user().len() == 4);
    assert(key_collection_id().len() == 13);
    assert(key_data().len() == 4);
    assert(key_id().len() == 2);
    assert(key_user()[0] == 117);
    assert(key_data()[0] == 100);
}

/// Law of extraction: reading the JSON object a payload serializes to
/// yields the payload back, field for field, absent options included.
pub proof fn lemma_payload_extract_inverse(p: PayloadV)
    requires
        pv_wf(p),
    ensures
        payload_of_jv(payload_jv(p)) == Some(p),
{
    reveal_with_fuel(obj_lookup, 6);
    lemma_payload_keys_distinct();
    let ms = seq![
        (key_project_id(), JsonV::Str(p.project_id)),
        (key_token_id(), JsonV::Str(p.token_id)),
        (key_user(), user_jv(p.user)),
        (key_collection_id(), JsonV::Str(p.collection_id)),
        (key_data(), data_jv(p.data)),
    ];
    let m1 = ms.drop_first();
    let m2 = m1.drop_first();
    let m3 = m2.drop_first();
    let m4 = m3.drop_first();
    assert(m1 =~~= seq![
        (key_token_id(), JsonV::Str(p.token_id)),
        (key_user(), user_jv(p.user)),
        (key_collection_id(), JsonV::Str(p.collection_id)),
        (key_data(), data_jv(p.data)),
    ]);
    assert(m2 =~~= seq![
        (key_user(), user_jv(p.user)),
        (key_collection_id(), JsonV::Str(p.collection_id)),
        (key_data(), data_jv(p.data)),
    ]);
    assert(m3 =~~= seq![
        (key_collection_id(), JsonV::Str(p.collection_id)),
        (key_data(), data_jv(p.data)),
    ]);
    assert(m4 =~~= seq![(key_data(), data_jv(p.data))]);
    assert(obj_lookup(ms, key_project_id()) == Some(JsonV::Str(p.project_id)));
    assert(obj_lookup(ms, key_token_id()) == Some(JsonV::Str(p.token_id)));
    assert(obj_lookup(ms, key_user()) == Some(user_jv(p.user)));
    assert(obj_lookup(ms, key_collection_id()) == Some(JsonV::Str(p.collection_id)));
    assert(obj_lookup(ms, key_data()) == Some(data_jv(p.data)));
    lemma_uuid_canonical(p.project_id);
    lemma_uuid_canonical(p.token_id);
    lemma_uuid_canonical(p.collection_id);
    assert(uuid_of_jv(Some(JsonV::Str(p.project_id))) == Some(p.project_id));
    assert(uuid_of_jv(Some(JsonV::Str(p.token_id))) == Some(p.token_id));
    assert(uuid_of_jv(Some(JsonV::Str(p.collection_id))) == Some(p.collection_id));
    match p.user {
        Some(u) => {
            lemma_uuid_canonical(u.collection_id);
            lemma_uuid_canonical(u.id);
            let um = seq![
                (key_collection_id(), JsonV::Str(u.collection_id)),
                (key_id(), JsonV::Str(u.id)),
            ];
            assert(um.drop_first() =~~= seq![(key_id(), JsonV::Str(u.id))]);
            assert(obj_lookup(um, key_collection_id()) == Some(JsonV::Str(u.collection_id)));
            assert(obj_lookup(um, key_id()) == Some(JsonV::Str(u.id)));
            assert(user_of_jv(Some(user_jv(p.user))) == Some(Some(u)));
        },
        None => {
            assert(user_of_jv(Some(user_jv(p.user))) == Some(None::<UserPayloadV>));
        },
    }
    match p.data {
        Some(m) => {
            assert(data_of_jv(Some(data_jv(p.data))) == Some(Some(m)));
        },
        None => {
            assert(data_of_jv(Some(data_jv(p.data))) == Some(None::<Seq<(Seq<u8>, JsonV)>>));
        },
    }
    assert(payload_of_jv(payload_jv(p)) == Some(p));
}

/// Round trip: serializing a payload to its document text and parsing
/// that text back yields an equal payload — absent `user` and `data`
/// come back absent.
pub proof fn lemma_payload_round_trip(p: PayloadV)
    requires
        pv_wf(p),
        wf_num(payload_jv(p)),
    ensures
        payload_of_text(ser_val(payload_jv(p))) == Some(p),
{
    lemma_doc_round_trip(payload_jv(p));
    lemma_payload_extract_inverse(p);
}

/// The model of any run-time payload whose data holds valid number
/// tokens satisfies what the round-trip law asks.
pub proof fn lemma_payload_model_wf(p: Payload)
    requires
        p.wf(),
        wf_num(data_jv(p.pv().data)),
    ensures
        pv_wf(p.pv()),
        wf_num(payload_jv(p.pv())),
{
    let pv = p.pv();
    let ms = seq![
        (key_project_id(), JsonV::Str(pv.project_id)),
        (key_token_id(), JsonV::Str(pv.token_id)),
        (key_user(), user_jv(pv.user)),
        (key_collection_id(), JsonV::Str(pv.collection_id)),
        (key_data(), data_jv(pv.data)),
    ];
    assert(wf_num(user_jv(pv.user))) by {
        match pv.user {
            Some(u) => {
                let um = seq![
                    (key_collection_id(), JsonV::Str(u.collection_id)),
                    (key_id(), JsonV::Str(u.id)),
                ];
                assert(forall|k: int| 0 <= k < um.len() ==> wf_num((#[trigger] um[k]).1));
            },
            None => {},
        }
    }
    assert(forall|k: int| 0 <= k < ms.len() ==> wf_num((#[trigger] ms[k]).1));
    assert(payload_jv(pv) == JsonV::Obj(ms));
}

/// The key "project_id" as a fresh vector.
fn key_project_id_vec() -> (r: Vec<u8>)
    ensures
        r@ == key_project_id(),
{
    let r = vec![112u8, 114u8, 111u8, 106u8, 101u8, 99u8, 116u8, 95u8, 105u8, 100u8];
    proof {
        assert(r@ =~= key_project_id());
    }
    r
}

/// The key "token_id" as a fresh vector.
fn key_token_id_vec() -> (r: Vec<u8>)
    ensures
        r@ == key_token_id(),
{
    let r = vec![116u8, 111u8, 107u8, 101u8, 110u8, 95u8, 105u8, 100u8];
    proof {
        assert(r@ =~= key_token_id());
    }
    r
}

/// The key "user" as a fresh vector.
fn key_user_vec() -> (r: Vec<u8>)
    ensures
        r@ == key_user(),
{
    let r = vec![117u8, 115u8, 101u8, 114u8];
    proof {
        assert(r@ =~= key_user());
    }
    r
}

/// The key "collection_id" as a fresh vector.
fn key_collection_id_vec() -> (r: Vec<u8>)
    ensures
        r@ == key_collection_id(),
{
    let r = vec![99u8, 111u8, 108u8, 108u8, 101u8, 99u8, 116u8, 105u8, 111u8, 110u8, 95u8, 105u8, 100u8];
    proof {
        assert(r@ =~= key_collection_id());
    }
    r
}

/// The key "id" as a fresh vector.
fn key_id_vec() -> (r: Vec<u8>)
    ensures
        r@ == key_id(),
{
    let r = vec![105u8, 100u8];
    proof {
        assert(r@ =~= key_id());
    }
    r
}

/// The key "data" as a fresh vector.
fn key_data_vec() -> (r: Vec<u8>)
    ensures
        r@ == key_data(),
{
    let r = vec![100u8, 97u8, 116u8, 97u8];
    proof {
        assert(r@ =~= key_data());
    }
    r
}

} // verus!

