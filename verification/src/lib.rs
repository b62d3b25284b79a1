//! A guarded key-value map.
//!
//! The map couples every borrowed value to an explicit reclamation scope: a
//! caller pins a [`Guard`], obtains a [`HashMapRef`] view, and issues
//! operations through it. Entries live in a slot table that keeps tombstones
//! for removed keys and grows by rebuilding into a larger generation; retired
//! generations are handed to an epoch [`Collector`] that reclaims an object
//! only once no guard pinned at or before its retirement remains active.

pub mod laws;
pub mod map;
pub mod map_ref;
pub mod reclaim;
pub mod table;

pub use map::HashMap;
pub use map_ref::HashMapRef;
pub use map_ref::TryInsertError;
pub use reclaim::Collector;
pub use reclaim::Guard;
pub use table::ComputeOutcome;

