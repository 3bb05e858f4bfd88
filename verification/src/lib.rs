//! A fractional-ownership registry for media assets.
//!
//! Each registered asset carries a partition: an ordered list of
//! (owner, share) entries whose shares always sum to exactly 100.
//! The registry offers two operations: creating a record, which hands
//! the full 100% to the creator, and transferring part of one owner's
//! share to another party. Both preserve the partition invariants,
//! and a failed transfer leaves the record untouched.

pub mod laws;
pub mod owner;
pub mod registry;
