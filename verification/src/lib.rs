//! A persistent bidirectional index from numeric account identifiers to the
//! display handles observed for them, and back.
//!
//! Identifier records and handle records share one key space, told apart by a
//! one-byte prefix: `0x00` followed by the identifier's eight big-endian bytes
//! keys the list of handles seen for it, and `0x01` followed by the
//! case-folded handle's UTF-8 bytes keys the list of identifiers seen for it.
//! Values are append-only, order-preserving, de-duplicating lists, combined
//! by an associative merge operator so that the backing log-structured store
//! accumulates entries without ever reading then writing.
//!
//! The store itself is driven from outside this crate: `index` produces keys
//! and operands and decodes stored values, `merge` is the operator the store
//! applies, and `model` states and proves what the whole arrangement
//! guarantees.

pub mod bytes;
pub mod codec;
pub mod error;
pub mod index;
pub mod merge;
pub mod model;
pub mod records;
