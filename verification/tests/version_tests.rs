use hyperbase_mqtt::version::{select_version, MqttVersion};

fn b(s: &str) -> Vec<u8> {
    s.as_bytes().to_vec()
}

#[test]
fn to_str_names_both_versions() {
    assert_eq!(MqttVersion::V3.to_str(), "v3");
    assert_eq!(MqttVersion::V5.to_str(), "v5");
}

#[test]
fn absent_version_defaults_to_v5() {
    assert_eq!(select_version(&None), MqttVersion::V5);
}

#[test]
fn lowercase_v3_selects_v3() {
    assert_eq!(select_version(&Some(b("v3"))), MqttVersion::V3);
}

#[test]
fn uppercase_v3_selects_v3() {
    assert_eq!(select_version(&Some(b("V3"))), MqttVersion::V3);
}

#[test]
fn unrecognized_versions_fall_back_to_v5() {
    assert_eq!(select_version(&Some(b("v4"))), MqttVersion::V5);
    assert_eq!(select_version(&Some(b("mqtt3"))), MqttVersion::V5);
    assert_eq!(select_version(&Some(b("v5"))), MqttVersion::V5);
    assert_eq!(select_version(&Some(b(""))), MqttVersion::V5);
    assert_eq!(select_version(&Some(b("3"))), MqttVersion::V5);
}
