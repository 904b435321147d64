//! Why an operation on a map was refused.

use vstd::prelude::*;
use crate::ids::{IntersectionID, LaneID, NavNodeID, RoadID};

verus! {

/// Why an operation on a map was refused. The map is then left as it was.
#[derive(Clone, Copy, Debug, PartialEq, Eq, Structural)]
pub enum MapError {
    /// The map has no intersection with this identifier.
    UnknownIntersection(IntersectionID),
    /// The map has no road with this identifier.
    UnknownRoad(RoadID),
    /// A road must join two different intersections.
    LoopRoad(IntersectionID),
    /// Roads still end at this intersection.
    IntersectionInUse(IntersectionID),
    /// This lane ends at the intersection and has no node bound there.
    LaneUnbound(LaneID),
}

/// Why a record of a map was refused: the first entity that breaks the
/// rules of a map. Roads are looked at first, then intersections, lanes and
/// nodes, each kind in the order of its identifiers.
#[derive(Clone, Copy, Debug, PartialEq, Eq, Structural)]
pub enum LoadError {
    BadRoad(RoadID),
    BadIntersection(IntersectionID),
    BadLane(LaneID),
    BadNode(NavNodeID),
}

} // verus!
