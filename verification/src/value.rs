//! Property values and the rule that decides what a copy keeps of them.

use rbx_types::Variant;
use vstd::prelude::*;

use crate::keys::{compare_keys, KeyOrder};
use crate::outside::copy_payload;

verus! {

/// The identity that names no node.
pub const NO_REFERENCE: u128 = 0;

/// An application-level uniqueness stamp.
#[derive(Clone, Copy, Debug, PartialEq, Eq)]
pub struct UniqueStamp {
    pub index: u32,
    pub time: u32,
    pub random: i64,
}

/// A property value.
#[derive(Debug, PartialEq)]
pub enum Value {
    /// A reference to the node of this identity, or `NO_REFERENCE`.
    Reference(u128),
    /// A uniqueness stamp.
    UniqueId(UniqueStamp),
    /// A payload of any other kind: never a reference, never a stamp.
    Other(Variant),
}

/// The key of the property that holds a node's uniqueness stamp.
pub open spec fn unique_id_key() -> Seq<char> {
    "UniqueId"@
}

/// A stamp could not be generated.
#[derive(Clone, Copy, Debug, PartialEq, Eq, Structural)]
pub struct GenerationError;

/// What the copy of a document holds in place of `value`.
pub open spec fn sanitized(value: Value) -> Value {
    match value {
        Value::Reference(_) => Value::Reference(NO_REFERENCE),
        _ => value,
    }
}

/// What the copy of a node holds under the key of the stamp, where the
/// node held `previous` there and generating a new stamp came to `outcome`:
/// the new stamp, or nothing where there is none or it is the old one.
pub open spec fn restamped(
    previous: Value,
    outcome: Result<UniqueStamp, GenerationError>,
) -> Option<Value> {
    match outcome {
        Ok(stamp) => if Value::UniqueId(stamp) != previous {
            Some(Value::UniqueId(stamp))
        } else {
            None
        },
        Err(_) => None,
    }
}

/// Whether `key` is the key of the uniqueness stamp.
pub fn is_unique_id_key(key: &str) -> (reserved: bool)
    ensures
        reserved == (key@ == unique_id_key()),
{
    match compare_keys(key, "UniqueId") {
        KeyOrder::Same => true,
        _ => false,
    }
}

/// The value that a clone holds under `key` in place of `value`: a reference
/// to no node for a reference, and the same value for everything else. The
/// key of the stamp is not for this function: see `restamp`.
pub fn sanitize(key: &str, value: &Value) -> (clean: Value)
    requires
        key@ != unique_id_key(),
    ensures
        clean == sanitized(*value),
{
    match value {
        Value::Reference(_) => Value::Reference(NO_REFERENCE),
        _ => value.duplicate(),
    }
}

/// The value that a clone holds under the key of the stamp, if any.
pub fn restamp(previous: &Value, outcome: Result<UniqueStamp, GenerationError>) -> (renewed:
    Option<Value>)
    ensures
        renewed == restamped(*previous, outcome),
{
    match outcome {
        Ok(stamp) => {
            let stale = match previous {
                Value::UniqueId(old) => old.index == stamp.index && old.time == stamp.time
                    && old.random == stamp.random,
                _ => false,
            };
            if stale {
                None
            } else {
                Some(Value::UniqueId(stamp))
            }
        },
        Err(_) => None,
    }
}

impl Value {
    /// A copy of this value.
    pub fn duplicate(&self) -> (copy: Value)
        ensures
            copy == *self,
    {
        match self {
            Value::Reference(target) => Value::Reference(*target),
            Value::UniqueId(stamp) => Value::UniqueId(*stamp),
            Value::Other(payload) => Value::Other(copy_payload(payload)),
        }
    }
}

} // verus!
