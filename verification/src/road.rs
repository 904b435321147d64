//! Roads: the edges of the topology graph.

use vstd::prelude::*;
use crate::ids::{IntersectionID, LaneID, RoadID};

verus! {

/// A road between two intersections, with the lanes it is split into.
///
/// Forward lanes carry traffic towards `dst`, backward lanes towards `src`.
/// Within each list the first lane is the one closest to the centre line.
#[derive(Debug)]
pub struct Road {
    pub id: RoadID,
    pub src: IntersectionID,
    pub dst: IntersectionID,
    pub lanes_forward: Vec<LaneID>,
    pub lanes_backward: Vec<LaneID>,
}

/// What a [`Road`] holds, as mathematical values.
pub struct RoadModel {
    pub id: RoadID,
    pub src: IntersectionID,
    pub dst: IntersectionID,
    pub lanes_forward: Seq<LaneID>,
    pub lanes_backward: Seq<LaneID>,
}

impl View for Road {
    type V = RoadModel;

    open spec fn view(&self) -> RoadModel {
        RoadModel {
            id: self.id,
            src: self.src,
            dst: self.dst,
            lanes_forward: self.lanes_forward@,
            lanes_backward: self.lanes_backward@,
        }
    }
}

impl Clone for Road {
    fn clone(&self) -> (road: Road)
        ensures
            road@ == self@,
    {
        Road {
            id: self.id,
            src: self.src,
            dst: self.dst,
            lanes_forward: self.lanes_forward.clone(),
            lanes_backward: self.lanes_backward.clone(),
        }
    }
}

impl Road {
    /// A road without lanes.
    pub fn new(id: RoadID, src: IntersectionID, dst: IntersectionID) -> (road: Road)
        ensures
            road@ == (RoadModel {
                id,
                src,
                dst,
                lanes_forward: Seq::empty(),
                lanes_backward: Seq::empty(),
            }),
    {
        Road { id, src, dst, lanes_forward: Vec::new(), lanes_backward: Vec::new() }
    }
}

} // verus!
