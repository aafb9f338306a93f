//! Placement of encoded blocks in CKKS slots.
//!
//! Packed layouts place every coordinate in one ciphertext, whereas split layouts use one
//! ciphertext per coordinate.

pub mod packed;
pub mod split;

pub use packed::{PackedLayout, PackedSlots};
pub use split::{SplitLayout, SplitSlots};
