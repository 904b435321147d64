//! Identifiers of the entities of a map.
//!
//! An identifier is the arena slot its entity occupies. It stays valid until
//! the entity is removed; the slot may then be given to a later entity.

use vstd::prelude::*;

verus! {

/// Names a road.
#[derive(Clone, Copy, Debug, PartialEq, Eq, Structural, PartialOrd, Ord, Hash)]
pub struct RoadID(pub usize);

/// Names an intersection.
#[derive(Clone, Copy, Debug, PartialEq, Eq, Structural, PartialOrd, Ord, Hash)]
pub struct IntersectionID(pub usize);

/// Names a lane.
#[derive(Clone, Copy, Debug, PartialEq, Eq, Structural, PartialOrd, Ord, Hash)]
pub struct LaneID(pub usize);

/// Names a node of the navigation mesh.
#[derive(Clone, Copy, Debug, PartialEq, Eq, Structural, PartialOrd, Ord, Hash)]
pub struct NavNodeID(pub usize);

} // verus!
