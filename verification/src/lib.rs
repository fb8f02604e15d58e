//! A capability-gated, enumerable key-value map over a flat 256-bit-addressed
//! storage space.
//!
//! Each map is authorized to use one capability-described address region and
//! packs a value slot, a presence flag, a length counter and an insertion-order
//! log into disjoint byte ranges of that region.  The address-derivation
//! arithmetic, the capability-validated construction and the map operations
//! are verified; the raw storage backend and the capability table are modelled
//! by the [`storage`] module so that the engine is backend-agnostic.

pub mod addr;
pub mod bytes;
pub mod data;
pub mod map_enumerable;
pub mod storage;
