//! MQTT protocol version and its selection from a configuration field.

use vstd::prelude::*;

verus! {

/// The two protocol versions the tools can speak.
#[derive(Clone, Copy, PartialEq, Eq, Structural, Debug)]
pub enum MqttVersion {
    V3,
    V5,
}

impl MqttVersion {
    /// The short name of the version, as printed to the user.
    pub open spec fn spec_str(self) -> Seq<char> {
        match self {
            MqttVersion::V3 => "v3"@,
            MqttVersion::V5 => "v5"@,
        }
    }

    pub fn to_str(&self) -> (r: &str)
        ensures
            r@ == self.spec_str(),
    {
        match self {
            MqttVersion::V3 => "v3",
            MqttVersion::V5 => "v5",
        }
    }
}

/// The byte 'v'.
pub const LOWER_V: u8 = 118;

/// The byte 'V'.
pub const UPPER_V: u8 = 86;

/// The byte '3'.
pub const DIGIT_3: u8 = 51;

/// True when the bytes spell "v3", ignoring the case of the letter.
pub open spec fn is_v3_text(s: Seq<u8>) -> bool {
    s.len() == 2 && (s[0] == LOWER_V || s[0] == UPPER_V) && s[1] == DIGIT_3
}

/// The version a configuration field selects: V3 exactly for a
/// case-insensitive "v3", V5 for anything else or for an absent field.
pub open spec fn spec_select_version(v: Option<Seq<u8>>) -> MqttVersion {
    match v {
        Some(s) => if is_v3_text(s) {
            MqttVersion::V3
        } else {
            MqttVersion::V5
        },
        None => MqttVersion::V5,
    }
}

/// Maps the optional `mqtt_version` field of a configuration to the
/// protocol version to use.
pub fn select_version(v: &Option<Vec<u8>>) -> (r: MqttVersion)
    ensures
        r == spec_select_version(v.deep_view()),
{
    match v {
        Some(s) => {
            if s.len() == 2 && (s[0] == LOWER_V || s[0] == UPPER_V) && s[1] == DIGIT_3 {
                MqttVersion::V3
            } else {
                MqttVersion::V5
            }
        },
        None => MqttVersion::V5,
    }
}

} // verus!
