//! Consistent hashing with virtual nodes and replica placement, together with
//! the planning of the hash ranges that a node has to copy, and from where,
//! after the cluster's topology changed.

pub mod hashring;

pub use hashring::coordinator::{Replicas, ReplicasView};
pub use hashring::iterator::HashRingIterator;
pub use hashring::{DefaultHashBuilder, HashRing, RingView};
