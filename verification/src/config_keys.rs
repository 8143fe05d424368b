//! Keys and small helpers shared by the two configuration schemas, and
//! the error a loader can report.

use vstd::prelude::*;
use crate::json::{JsonV, int_lexeme_value};

verus! {

/// Why a configuration could not be loaded: the file could not be read
/// (with the reader's message), or its text does not denote a
/// configuration.
#[derive(Debug, PartialEq, Eq)]
pub enum LoadError {
    IoError(Vec<u8>),
    ParseError,
}

/// The key "broker".
pub open spec fn key_broker() -> Seq<u8> {
    seq![98u8, 114u8, 111u8, 107u8, 101u8, 114u8]
}

/// The key "payload".
pub open spec fn key_payload() -> Seq<u8> {
    seq![112u8, 97u8, 121u8, 108u8, 111u8, 97u8, 100u8]
}

/// The key "count".
pub open spec fn key_count() -> Seq<u8> {
    seq![99u8, 111u8, 117u8, 110u8, 116u8]
}

/// The key "delay".
pub open spec fn key_delay() -> Seq<u8> {
    seq![100u8, 101u8, 108u8, 97u8, 121u8]
}

/// An optional non-negative integer field: absent or null is no value,
/// a number whose token is an integer in range is its value, anything
/// else is an error.
pub open spec fn count_of_jv(v: Option<JsonV>) -> Option<Option<u64>> {
    match v {
        None => Some(None),
        Some(JsonV::Null) => Some(None),
        Some(JsonV::Num(lex)) => match int_lexeme_value(lex) {
            Some(n) => if 0 <= n <= u64::MAX {
                Some(Some(n as u64))
            } else {
                None
            },
            None => None,
        },
        _ => None,
    }
}

/// The key "broker" as a fresh vector.
pub fn key_broker_vec() -> (r: Vec<u8>)
    ensures
        r@ == key_broker(),
{
    let r = vec![98u8, 114u8, 111u8, 107u8, 101u8, 114u8];
    proof {
        assert(r@ =~= key_broker());
    }
    r
}

/// The key "payload" as a fresh vector.
pub fn key_payload_vec() -> (r: Vec<u8>)
    ensures
        r@ == key_payload(),
{
    let r = vec![112u8, 97u8, 121u8, 108u8, 111u8, 97u8, 100u8];
    proof {
        assert(r@ =~= key_payload());
    }
    r
}

/// The key "count" as a fresh vector.
pub fn key_count_vec() -> (r: Vec<u8>)
    ensures
        r@ == key_count(),
{
    let r = vec![99u8, 111u8, 117u8, 110u8, 116u8];
    proof {
        assert(r@ =~= key_count());
    }
    r
}

/// The key "delay" as a fresh vector.
pub fn key_delay_vec() -> (r: Vec<u8>)
    ensures
        r@ == key_delay(),
{
    let r = vec![100u8, 101u8, 108u8, 97u8, 121u8];
    proof {
        assert(r@ =~= key_delay());
    }
    r
}

} // verus!
