use hyperbase_mqtt::config_keys::LoadError;
use hyperbase_mqtt::publisher;
use hyperbase_mqtt::subscriber;
use hyperbase_mqtt::version::{select_version, MqttVersion};

fn b(s: &str) -> Vec<u8> {
    s.as_bytes().to_vec()
}

const U1: &str = "123e4567-e89b-12d3-a456-426614174000";

fn config_text(mqtt_version: &str, extra: &str) -> Vec<u8> {
    format!(
        "{{\"broker\":{{\"host\":\"localhost\",\"port\":1883,\"topic\":\"t\",\
         \"token_id\":\"tid\",\"token\":\"tok\"{mqtt_version}}},\
         \"payload\":{{\"project_id\":\"{U1}\",\"token_id\":\"{U1}\",\
         \"collection_id\":\"{U1}\"}}{extra}}}"
    )
    .into_bytes()
}

#[test]
fn read_failure_reports_io_error_and_nothing_else() {
    let r = publisher::load_config(Err(b("no such file")));
    assert_eq!(r, Err(LoadError::IoError(b("no such file"))));
    let r = subscriber::load_config(Err(b("permission denied")));
    assert_eq!(r, Err(LoadError::IoError(b("permission denied"))));
}

#[test]
fn full_publisher_config_loads() {
    let text = config_text(",\"mqtt_version\":\"V3\"", ",\"count\":3,\"delay\":1");
    let c = publisher::load_config(Ok(text)).unwrap();
    assert_eq!(c.broker.host, b("localhost"));
    assert_eq!(c.broker.port, 1883);
    assert_eq!(c.broker.topic, b("t"));
    assert_eq!(c.broker.token_id, b("tid"));
    assert_eq!(c.broker.token, b("tok"));
    assert_eq!(c.count, Some(3));
    assert_eq!(c.delay, Some(1));
    assert_eq!(select_version(&c.broker.mqtt_version), MqttVersion::V3);
}

#[test]
fn absent_mqtt_version_selects_v5_after_loading() {
    let text = config_text("", "");
    let c = publisher::load_config(Ok(text)).unwrap();
    assert_eq!(c.broker.mqtt_version, None);
    assert_eq!(select_version(&c.broker.mqtt_version), MqttVersion::V5);
}

#[test]
fn missing_host_is_a_parse_error() {
    let text = format!(
        "{{\"broker\":{{\"port\":1883,\"topic\":\"t\",\"token_id\":\"tid\",\
         \"token\":\"tok\"}},\"payload\":{{\"project_id\":\"{U1}\",\
         \"token_id\":\"{U1}\",\"collection_id\":\"{U1}\"}}}}"
    )
    .into_bytes();
    assert_eq!(publisher::load_config(Ok(text.clone())), Err(LoadError::ParseError));
    assert_eq!(subscriber::load_config(Ok(text)), Err(LoadError::ParseError));
}

#[test]
fn malformed_json_is_a_parse_error() {
    assert_eq!(publisher::load_config(Ok(b("{not json"))), Err(LoadError::ParseError));
    assert_eq!(subscriber::load_config(Ok(b(""))), Err(LoadError::ParseError));
}

#[test]
fn fractional_port_or_count_is_a_parse_error() {
    let frac_port = format!(
        "{{\"broker\":{{\"host\":\"h\",\"port\":18.83,\"topic\":\"t\",\"token_id\":\"a\",\"token\":\"b\"}},\"payload\":{{\"project_id\":\"{U1}\",\"token_id\":\"{U1}\",\"collection_id\":\"{U1}\"}}}}"
    )
    .into_bytes();
    assert_eq!(publisher::load_config(Ok(frac_port)), Err(LoadError::ParseError));
    let exp_count = config_text("", ",\"count\":1e2");
    assert_eq!(publisher::load_config(Ok(exp_count)), Err(LoadError::ParseError));
}

#[test]
fn float_payload_data_still_loads() {
    let with_data = format!(
        "{{\"broker\":{{\"host\":\"h\",\"port\":1883,\"topic\":\"t\",\"token_id\":\"a\",\"token\":\"b\"}},\"payload\":{{\"project_id\":\"{U1}\",\"token_id\":\"{U1}\",\"collection_id\":\"{U1}\",\"data\":{{\"temp\":21.5}}}},\"count\":3}}"
    )
    .into_bytes();
    let c = publisher::load_config(Ok(with_data)).unwrap();
    assert_eq!(c.count, Some(3));
    let data = c.payload.data.unwrap();
    assert_eq!(data.len(), 1);
    assert_eq!(data[0].1, hyperbase_mqtt::json::Json::Num(b("21.5")));
}

#[test]
fn out_of_range_port_and_negative_count_are_parse_errors() {
    let bad_port = format!(
        "{{\"broker\":{{\"host\":\"h\",\"port\":70000,\"topic\":\"t\",\
         \"token_id\":\"a\",\"token\":\"b\"}},\"payload\":{{\"project_id\":\"{U1}\",\
         \"token_id\":\"{U1}\",\"collection_id\":\"{U1}\"}}}}"
    )
    .into_bytes();
    assert_eq!(publisher::load_config(Ok(bad_port)), Err(LoadError::ParseError));
    let neg_count = config_text("", ",\"count\":-2");
    assert_eq!(publisher::load_config(Ok(neg_count)), Err(LoadError::ParseError));
}

#[test]
fn subscriber_config_loads_with_credentials() {
    let text = config_text(",\"mqtt_version\":\"v3\"", "");
    let c = subscriber::load_config(Ok(text)).unwrap();
    assert_eq!(c.broker.token_id, b("tid"));
    assert_eq!(c.broker.token, b("tok"));
    assert_eq!(c.payload.collection_id, b(U1));
    assert_eq!(select_version(&c.broker.mqtt_version), MqttVersion::V3);
}

#[test]
fn unknown_keys_are_ignored() {
    let text = config_text("", ",\"comment\":\"x\"");
    assert!(publisher::load_config(Ok(text)).is_ok());
}
