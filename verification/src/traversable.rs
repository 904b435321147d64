//! Traversables: lanes and turns under one handle, as the segments of a
//! route.

use vstd::prelude::*;
use crate::ids::{IntersectionID, LaneID, NavNodeID};
use crate::lane::LaneType;
use crate::map::RoadMap;
use crate::model::MapModel;
use crate::traffic_control::TurnPermission;
use crate::turn::{has_turn, turn_before, turns_sorted, Turn};

verus! {

/// Names a turn: the intersection it crosses and the two lanes it joins.
#[derive(Clone, Copy, Debug, PartialEq, Eq, Structural)]
pub struct TurnID {
    pub parent: IntersectionID,
    pub src: LaneID,
    pub dst: LaneID,
}

/// One segment of a route: a lane, or a turn across an intersection.
#[derive(Clone, Copy, Debug, PartialEq, Eq, Structural)]
pub enum Traversable {
    Lane(LaneID),
    Turn(TurnID),
}

/// What travels on a segment, or under what condition.
#[derive(Clone, Copy, Debug, PartialEq, Eq, Structural)]
pub enum TraversableKind {
    /// A lane, with the kind of traffic it carries.
    Lane(LaneType),
    /// A turn, with the permission under which it may be taken.
    Turn(TurnPermission),
}

/// A segment as a consumer reads it: the node at which it begins, the node
/// at which it ends, and its kind.
#[derive(Clone, Copy, Debug, PartialEq, Eq, Structural)]
pub struct Segment {
    pub start: NavNodeID,
    pub end: NavNodeID,
    pub kind: TraversableKind,
}

impl Turn {
    /// The name of the turn.
    pub fn id(&self) -> (id: TurnID)
        ensures
            id == (TurnID { parent: self.parent, src: self.src, dst: self.dst }),
    {
        TurnID { parent: self.parent, src: self.src, dst: self.dst }
    }

    /// The turn as a segment.
    pub open spec fn segment(self) -> Segment {
        Segment {
            start: self.src_node,
            end: self.dst_node,
            kind: TraversableKind::Turn(self.permission),
        }
    }
}

impl MapModel {
    /// The segment that a handle stands for: a lane with both ends bound,
    /// from the node where travel begins to the node where it ends, or a
    /// turn that is recorded at its intersection. `None` for a lane that the
    /// map does not hold or that lacks a node, and for a turn that is not
    /// recorded.
    pub open spec fn resolve(self, t: Traversable) -> Option<Segment> {
        match t {
            Traversable::Lane(l) => if self.has_lane(l) {
                match self.lane(l).travel_ends() {
                    Some((start, end)) => Some(
                        Segment {
                            start,
                            end,
                            kind: TraversableKind::Lane(self.lane(l).lane_type),
                        },
                    ),
                    None => None,
                }
            } else {
                None
            },
            Traversable::Turn(id) => if self.has_intersection(id.parent) && has_turn(
                self.intersection(id.parent).turns,
                id.src,
                id.dst,
            ) {
                let turns = self.intersection(id.parent).turns;
                let k = choose|k: int|
                    0 <= k < turns.len() && #[trigger] turns[k].src == id.src && turns[k].dst
                        == id.dst;
                Some(turns[k].segment())
            } else {
                None
            },
        }
    }
}

impl RoadMap {
    /// Resolves a handle to the segment it stands for, if the map holds it.
    pub fn resolve(&self, t: Traversable) -> (segment: Option<Segment>)
        requires
            self.wf(),
        ensures
            segment == self@.resolve(t),
    {
        match t {
            Traversable::Lane(l) => match self.lane(l) {
                Some(lane) => match lane.travel_nodes() {
                    Some((start, end)) => Some(
                        Segment { start, end, kind: TraversableKind::Lane(lane.lane_type) },
                    ),
                    None => None,
                },
                None => None,
            },
            Traversable::Turn(id) => {
                let x = match self.intersection(id.parent) {
                    Some(x) => x,
                    None => {
                        return None;
                    },
                };
                let ghost turns = x.turns@;
                proof {
                    assert(self@.intersection_wf(id.parent));
                }
                let mut k: usize = 0;
                while k < x.turns.len()
                    invariant
                        k <= x.turns.len(),
                        turns == x.turns@,
                        t == Traversable::Turn(id),
                        self@.has_intersection(id.parent),
                        turns == self@.intersection(id.parent).turns,
                        turns_sorted(turns),
                        forall|j: int|
                            0 <= j < k ==> !((#[trigger] turns[j]).src == id.src && turns[j].dst
                                == id.dst),
                    decreases x.turns.len() - k,
                {
                    let turn = x.turns[k];
                    if turn.src == id.src && turn.dst == id.dst {
                        proof {
                            assert(turns[k as int].src == id.src && turns[k as int].dst
                                == id.dst);
                            assert(has_turn(turns, id.src, id.dst));
                            assert forall|c: int|
                                0 <= c < turns.len() && (#[trigger] turns[c]).src == id.src
                                    && turns[c].dst == id.dst implies c == k by {
                                if c < k {
                                    assert(turn_before(turns[c], turns[k as int]));
                                }
                                if c > k {
                                    assert(turn_before(turns[k as int], turns[c]));
                                }
                            }
                        }
                        return Some(
                            Segment {
                                start: turn.src_node,
                                end: turn.dst_node,
                                kind: TraversableKind::Turn(turn.permission),
                            },
                        );
                    }
                    k += 1;
                }
                None
            },
        }
    }
}

} // verus!
