//! An in-memory triple-store engine built on a persistent, hash-indexed,
//! adaptive radix structure (PATCH): fixed-length binary keys held in sorted
//! sets with a commutative SipHash fingerprint, set algebra over that
//! fingerprint, and a worst-case-optimal multi-way join over triple patterns.
//!
//! - `keys`, `fingerprint`, `bits`, `vecset`: byte orderings, the XOR-of-SipHash
//!   set fingerprint, the 256-bit variable set, sorted byte-string containers.
//! - `patch`, `trible`, `hashtribleset`, `column`, `blobset`, `archive`: the
//!   trie itself, the six-way indexed triple store, the hashed fallback index,
//!   single-attribute columns, content-addressed blobs, the succinct archive.
//! - `query` and the `*constraint` modules: the join driver and its adapters.
//! - `id`, `errors`: identifier embedding and the error kinds.

use vstd::prelude::*;

pub mod anyconstraint;
pub mod archive;
pub mod bits;
pub mod blobset;
pub mod column;
pub mod constantconstraint;
pub mod errors;
pub mod fingerprint;
pub mod hashtribleset;
pub mod hashtriblesetconstraint;
pub mod id;
pub mod intersectionconstraint;
pub mod keys;
pub mod patch;
pub mod query;
pub mod trible;
pub mod triblesetconstraint;
pub mod vecset;

verus! {

/// Length in bytes of a value (and of a content digest).
pub const VALUE_LEN: usize = 32;

/// Length in bytes of an entity or attribute identifier.
pub const ID_LEN: usize = 16;

/// Length in bytes of a triple key: entity (16) | attribute (16) | value (32).
pub const TRIBLE_LEN: usize = 64;

} // verus!
