//! Verified core of a pair of MQTT command-line tools: configuration
//! parsing, payload encoding and decoding, protocol version selection,
//! and the decision logic of the publish and subscribe event loops.
//!
//! All network and file I/O lives outside this crate; the functions here
//! work on plain values and carry contracts checked by Verus.

pub mod broker;
pub mod bytes;
pub mod config_keys;
pub mod json;
pub mod payload;
pub mod publisher;
pub mod subscriber;
pub mod version;
