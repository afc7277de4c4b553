//! Ordered, key-unique entry sequences, as used for the member list of a JSON
//! object: a binary search by key, and an insert-or-replace operation that
//! keeps a `Vec` of entries sorted by key.
//!
//! The search and the upsert are written once, in [`entries`], for any entry
//! type that exposes a string key; [`kv::KeyValue`] and [`property::Property`]
//! are the two entry types, generic over the value they carry.
pub mod entries;
pub mod key_order;
pub mod kv;
pub mod property;
