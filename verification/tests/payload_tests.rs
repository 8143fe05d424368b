use hyperbase_mqtt::json::{parse_document, to_bytes, Json};
use hyperbase_mqtt::payload::{payload_of_json, payload_to_json, Payload, UserPayload};

fn b(s: &str) -> Vec<u8> {
    s.as_bytes().to_vec()
}

const U1: &str = "123e4567-e89b-12d3-a456-426614174000";
const U2: &str = "00000000-0000-7000-8000-000000000001";
const U3: &str = "aaaaaaaa-bbbb-cccc-dddd-eeeeffff0000";

fn bare_payload() -> Payload {
    Payload {
        project_id: b(U1),
        token_id: b(U2),
        user: None,
        collection_id: b(U3),
        data: None,
    }
}

fn full_payload() -> Payload {
    Payload {
        project_id: b(U1),
        token_id: b(U2),
        user: Some(UserPayload { collection_id: b(U3), id: b(U1) }),
        collection_id: b(U3),
        data: Some(vec![
            (b("temp"), Json::Num(b("21.5"))),
            (b("note"), Json::Str(b("a \"b\"\n"))),
            (b("tags"), Json::Arr(vec![Json::Str(b("x")), Json::Null])),
        ]),
    }
}

#[test]
fn serializes_bare_payload_exactly() {
    let bytes = to_bytes(&payload_to_json(bare_payload()));
    let expected = format!(
        "{{\"project_id\":\"{U1}\",\"token_id\":\"{U2}\",\"user\":null,\"collection_id\":\"{U3}\",\"data\":null}}"
    );
    assert_eq!(bytes, expected.into_bytes());
}

#[test]
fn round_trips_bare_payload() {
    let bytes = to_bytes(&payload_to_json(bare_payload()));
    let parsed = payload_of_json(parse_document(&bytes).unwrap()).unwrap();
    assert_eq!(parsed, bare_payload());
    assert!(parsed.user.is_none());
    assert!(parsed.data.is_none());
}

#[test]
fn round_trips_full_payload() {
    let bytes = to_bytes(&payload_to_json(full_payload()));
    let parsed = payload_of_json(parse_document(&bytes).unwrap()).unwrap();
    assert_eq!(parsed, full_payload());
}

#[test]
fn accepts_simple_form_uuids_and_hyphenates_them() {
    let simple: String = U1.chars().filter(|c| *c != '-').collect();
    let doc = format!(
        "{{\"project_id\":\"{simple}\",\"token_id\":\"{U2}\",\"collection_id\":\"{U3}\"}}"
    );
    let parsed = payload_of_json(parse_document(&doc.into_bytes()).unwrap()).unwrap();
    assert_eq!(parsed.project_id, b(U1));
}

#[test]
fn accepts_uppercase_uuids_and_lowers_them() {
    let doc = format!(
        "{{\"project_id\":\"{}\",\"token_id\":\"{U2}\",\"collection_id\":\"{U3}\"}}",
        U1.to_uppercase()
    );
    let parsed = payload_of_json(parse_document(&doc.into_bytes()).unwrap()).unwrap();
    assert_eq!(parsed.project_id, b(U1));
}

#[test]
fn absent_optionals_parse_as_absent() {
    let doc = format!(
        "{{\"project_id\":\"{U1}\",\"token_id\":\"{U2}\",\"collection_id\":\"{U3}\"}}"
    );
    let parsed = payload_of_json(parse_document(&doc.into_bytes()).unwrap()).unwrap();
    assert!(parsed.user.is_none());
    assert!(parsed.data.is_none());
}

#[test]
fn rejects_missing_or_malformed_uuid_fields() {
    let missing = format!("{{\"project_id\":\"{U1}\",\"token_id\":\"{U2}\"}}");
    assert!(payload_of_json(parse_document(&missing.into_bytes()).unwrap()).is_none());
    let short = format!(
        "{{\"project_id\":\"12345\",\"token_id\":\"{U2}\",\"collection_id\":\"{U3}\"}}"
    );
    assert!(payload_of_json(parse_document(&short.into_bytes()).unwrap()).is_none());
    let wrong_type = format!(
        "{{\"project_id\":7,\"token_id\":\"{U2}\",\"collection_id\":\"{U3}\"}}"
    );
    assert!(payload_of_json(parse_document(&wrong_type.into_bytes()).unwrap()).is_none());
}

#[test]
fn reference_parser_reads_serialized_payload() {
    let bytes = to_bytes(&payload_to_json(full_payload()));
    let v: serde_json::Value = serde_json::from_slice(&bytes).unwrap();
    assert_eq!(v["project_id"], serde_json::Value::String(String::from(U1)));
    assert_eq!(v["user"]["id"], serde_json::Value::String(String::from(U1)));
    assert_eq!(
        v["data"]["temp"],
        serde_json::Value::Number(serde_json::Number::from_f64(21.5).unwrap())
    );
}
