//! Row hydration for query results.
//!
//! Given an ordered projection (what each position of a `SELECT` list should
//! become) and a batch of raw rows (byte-string keyed value mappings), this
//! library materializes, per row, either a single hydrated value or an
//! ordered tuple of hydrated values. Entity elements are rebuilt from field
//! descriptors, scalar columns and computed expressions are looked up by
//! key, and structured payloads (text cells holding an encoded value tree)
//! are decoded along the way.

pub mod codec;
pub mod hydrate;
pub mod value;

pub use codec::decode_payload;
pub use codec::encode_payload;
pub use hydrate::Hydration;
pub use hydrate::hydrate;
pub use value::Value;
pub use value::Valuev;
