//! Brute-force recovery of hashed email addresses.
//!
//! Usernames are enumerated over a fixed alphabet in odometer order, joined with
//! each configured domain, digested with SHA-256 and compared with a set of
//! target digests.
//!
//! - [`order`] states the enumeration as mathematics and proves it exhaustive.
//! - [`cursors`] models the odometer that walks through it.
//! - [`generator`] is the enumerator itself.
//! - [`digest`] digests an address and writes the digest in hexadecimal.
//! - [`search`] matches candidates against the targets.
//! - [`config`] holds the alphabet and the length limit.
//! - [`text`] gives contracts to the `String` operations the buffer uses.

pub mod config;
pub mod cursors;
pub mod digest;
pub mod generator;
pub mod order;
pub mod search;
pub mod text;
