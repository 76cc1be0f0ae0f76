//! A consistent-hashing ring: keys are placed on a circle of 32-bit positions and served by
//! the physical node that owns the next virtual node clockwise.
pub mod hashing;
pub mod lemmas;
pub mod ring;
pub mod search;

pub use hashing::vnode_key_bytes;
pub use ring::{HashRing, ID_SPACE, VNODES_PER_SERVER};
pub use search::binary_search_next_greatest;
