//! A hierarchical, growable bit set.
//!
//! Layer 0 holds one bit per position. Every layer above it holds one bit per
//! word of the layer below, set exactly when that word is not zero, up to a
//! top layer of a single word. This lets iteration and draining skip empty
//! stretches of the set a whole word at a time.
pub mod bits;
pub mod layout;
pub mod levels;
pub mod layer;
pub mod bitset;
pub mod atomic;
pub mod laws;

pub use crate::atomic::AtomicBitSet;
pub use crate::bitset::{BitSet, Drain, DrainSnapshot, Iter};
pub use crate::layer::Layer;
pub use crate::layout::{bit_set_layout, round_capacity_up, LayerLayout};
