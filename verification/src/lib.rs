//! A deterministic, ordinal-indexed, multi-version key-value store for
//! exercising stream-processing handlers in isolation.
//!
//! The store keeps, per key, the complete history of the values written to
//! it, each tagged with the event sequence number ("ordinal") at which the
//! write occurred.  A family of typed write operators (replace,
//! replace-if-absent, accumulate, keep-maximum, keep-minimum, append,
//! prefix-delete) is built on top of a byte-level versioned table, and a
//! byte-codec layer makes the table type-agnostic.
//!
//! The store lives for a single in-process replay session.  Exclusive
//! mutation is enforced statically through `&mut` receivers instead of a
//! runtime re-entrancy guard.

pub mod array;
pub mod bignum;
pub mod delta;
pub mod digits;
pub mod int64;
pub mod key;
pub mod laws;
pub mod numeric;
pub mod store;
pub mod table;
pub mod traits;
