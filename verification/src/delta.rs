//! Value-transition records derived from writes.
//!
//! A [`Delta`] describes one transition of one key: the operation kind,
//! the ordinal at which it happened, and the encoded value before and
//! after.  Deltas are informational side artifacts; producing them never
//! mutates the store.

use vstd::prelude::*;

verus! {

/// The kind of transition a write performed.
#[derive(Clone, Copy, Debug, PartialEq, Eq, Structural)]
pub enum Operation {
    /// The key had no prior entry.
    Create,
    /// The key had a prior entry that was superseded.
    Update,
    /// The key was removed outright (by a prefix delete).
    Delete,
}

/// One recorded value transition.
pub struct Delta {
    pub operation: Operation,
    pub ordinal: u64,
    pub key: String,
    /// Encoded value before the write; absent when the key was new.
    pub old_value: Option<Vec<u8>>,
    /// Encoded value after the write; absent when the key was deleted.
    pub new_value: Option<Vec<u8>>,
}

/// Derive the transition record of a write: a `Create` when the key had
/// no prior value, an `Update` otherwise.
pub fn record_write(ordinal: u64, key: String, old_value: Option<Vec<u8>>, new_value: Vec<u8>) -> (d:
    Delta)
    ensures
        d.operation == (if old_value is Some {
            Operation::Update
        } else {
            Operation::Create
        }),
        d.ordinal == ordinal,
        d.key@ == key@,
        d.old_value == old_value,
        d.new_value matches Some(nv) && nv@ == new_value@,
{
    let op = match old_value {
        Some(_) => Operation::Update,
        None => Operation::Create,
    };
    Delta { operation: op, ordinal, key, old_value, new_value: Some(new_value) }
}

/// Derive the transition record of a key removed by a prefix delete.
pub fn record_delete(ordinal: u64, key: String, old_value: Vec<u8>) -> (d: Delta)
    ensures
        d.operation == Operation::Delete,
        d.ordinal == ordinal,
        d.key@ == key@,
        d.old_value matches Some(ov) && ov@ == old_value@,
        d.new_value is None,
{
    Delta { operation: Operation::Delete, ordinal, key, old_value: Some(old_value), new_value: None }
}

} // verus!
