//! Lanes: the directed, typed travel channels of a road.

use vstd::prelude::*;
use slab::Slab;
use crate::arena::{lane_insert, lane_slots, lane_vacant, lane_vacant_key};
use crate::ids::{IntersectionID, LaneID, NavNodeID, RoadID};
use crate::road::{Road, RoadModel};

verus! {

/// The kind of traffic a lane carries.
#[derive(Clone, Copy, Debug, PartialEq, Eq, Structural, PartialOrd, Ord, Hash)]
pub enum LaneType {
    Driving,
    Biking,
    Bus,
    Construction,
}

impl LaneType {
    /// Traffic of one kind passes from a lane to a lane of the same kind.
    pub open spec fn compatible(self, other: LaneType) -> bool {
        self == other
    }

    /// Whether traffic may pass from a lane of this kind to one of `other`.
    pub fn connects_to(self, other: LaneType) -> (res: bool)
        ensures
            res == self.compatible(other),
    {
        self == other
    }
}

/// Which way traffic flows along a lane, relative to its road.
///
/// A forward lane is travelled from the road's source to its destination, a
/// backward lane from the destination to the source.
#[derive(Clone, Copy, Debug, PartialEq, Eq, Structural)]
pub enum LaneDirection {
    Forward,
    Backward,
}

/// Why a lane could not bind or give a navigation node.
#[derive(Clone, Copy, Debug, PartialEq, Eq, Structural)]
pub enum LaneError {
    /// The intersection is neither end of the lane.
    NotAnEndpoint,
    /// The intersection is an end of the lane, but no node is bound there yet.
    NodeUnbound,
}

/// A lane of a road.
///
/// `src_i` and `dst_i` are the ends of the parent road, whatever the lane's
/// direction. A lane starts without navigation nodes; the navigation mesh
/// binds one at each end.
#[derive(Clone, Copy, Debug, PartialEq, Eq, Structural)]
pub struct Lane {
    pub id: LaneID,
    pub parent: RoadID,
    pub lane_type: LaneType,
    pub src_i: IntersectionID,
    pub dst_i: IntersectionID,
    pub src_node: Option<NavNodeID>,
    pub dst_node: Option<NavNodeID>,
    pub direction: LaneDirection,
}

impl Lane {
    /// The intersection is one of the two ends of the lane.
    pub open spec fn touches(self, id: IntersectionID) -> bool {
        id == self.src_i || id == self.dst_i
    }

    /// The node bound at the given end, if the intersection is an end and a
    /// node is bound there. The source end is looked at first.
    pub open spec fn node_at(self, id: IntersectionID) -> Option<NavNodeID> {
        if id == self.src_i {
            self.src_node
        } else if id == self.dst_i {
            self.dst_node
        } else {
            None
        }
    }

    /// The lane with `node` bound at the end `id`; the lane itself where `id`
    /// is not an end. The source end is looked at first.
    pub open spec fn bound_at(self, id: IntersectionID, node: NavNodeID) -> Lane {
        if id == self.src_i {
            Lane { src_node: Some(node), ..self }
        } else if id == self.dst_i {
            Lane { dst_node: Some(node), ..self }
        } else {
            self
        }
    }

    /// The intersection at which travel along the lane begins.
    pub open spec fn travel_src(self) -> IntersectionID {
        match self.direction {
            LaneDirection::Forward => self.src_i,
            LaneDirection::Backward => self.dst_i,
        }
    }

    /// The intersection at which travel along the lane ends.
    pub open spec fn travel_dst(self) -> IntersectionID {
        match self.direction {
            LaneDirection::Forward => self.dst_i,
            LaneDirection::Backward => self.src_i,
        }
    }

    /// The lane that a road gets when a lane is created for it in the slot
    /// `id`: it copies the road's ends and has no node bound.
    pub open spec fn fresh(
        id: LaneID,
        owner: RoadModel,
        lane_type: LaneType,
        direction: LaneDirection,
    ) -> Lane {
        Lane {
            id,
            parent: owner.id,
            lane_type,
            src_i: owner.src,
            dst_i: owner.dst,
            src_node: None,
            dst_node: None,
            direction,
        }
    }

    /// Creates a forward lane of `owner` in the vacant slot of `store`.
    ///
    /// The lane's identifier is the slot it occupies. It is appended to the
    /// road's forward lanes; the backward lanes and every other slot of the
    /// arena stay as they were.
    pub fn make_forward(store: &mut Slab<Lane>, owner: &mut Road, lane_type: LaneType) -> (id:
        LaneID)
        ensures
            id.0 == lane_vacant(*old(store)),
            !lane_slots(*old(store)).dom().contains(id.0),
            lane_slots(*final(store)) == lane_slots(*old(store)).insert(
                id.0,
                Lane::fresh(id, old(owner)@, lane_type, LaneDirection::Forward),
            ),
            final(owner)@ == (RoadModel {
                lanes_forward: old(owner)@.lanes_forward.push(id),
                ..old(owner)@
            }),
    {
        let id = LaneID(lane_vacant_key(store));
        let _ = lane_insert(
            store,
            Lane {
                id,
                parent: owner.id,
                src_i: owner.src,
                dst_i: owner.dst,
                lane_type,
                src_node: None,
                dst_node: None,
                direction: LaneDirection::Forward,
            },
        );
        owner.lanes_forward.push(id);
        id
    }

    /// Creates a backward lane of `owner` in the vacant slot of `store`.
    ///
    /// The lane's identifier is the slot it occupies. It is appended to the
    /// road's backward lanes; the forward lanes and every other slot of the
    /// arena stay as they were.
    pub fn make_backward(store: &mut Slab<Lane>, owner: &mut Road, lane_type: LaneType) -> (id:
        LaneID)
        ensures
            id.0 == lane_vacant(*old(store)),
            !lane_slots(*old(store)).dom().contains(id.0),
            lane_slots(*final(store)) == lane_slots(*old(store)).insert(
                id.0,
                Lane::fresh(id, old(owner)@, lane_type, LaneDirection::Backward),
            ),
            final(owner)@ == (RoadModel {
                lanes_backward: old(owner)@.lanes_backward.push(id),
                ..old(owner)@
            }),
    {
        let id = LaneID(lane_vacant_key(store));
        let _ = lane_insert(
            store,
            Lane {
                id,
                parent: owner.id,
                src_i: owner.src,
                dst_i: owner.dst,
                lane_type,
                src_node: None,
                dst_node: None,
                direction: LaneDirection::Backward,
            },
        );
        owner.lanes_backward.push(id);
        id
    }

    /// The nodes at which travel along the lane begins and ends, in that
    /// order, where both ends are bound.
    pub open spec fn travel_ends(self) -> Option<(NavNodeID, NavNodeID)> {
        match (self.src_node, self.dst_node) {
            (Some(s), Some(d)) => Some(
                match self.direction {
                    LaneDirection::Forward => (s, d),
                    LaneDirection::Backward => (d, s),
                },
            ),
            _ => None,
        }
    }

    /// The same lane, travelled the other way.
    pub open spec fn reversed(self) -> Lane {
        Lane {
            direction: match self.direction {
                LaneDirection::Forward => LaneDirection::Backward,
                LaneDirection::Backward => LaneDirection::Forward,
            },
            ..self
        }
    }

    /// The nodes at which travel along the lane begins and ends, in that
    /// order, or `None` while an end has no node. The lane points from the
    /// first node to the second.
    pub fn travel_nodes(&self) -> (ends: Option<(NavNodeID, NavNodeID)>)
        ensures
            ends == self.travel_ends(),
    {
        match (self.src_node, self.dst_node) {
            (Some(s), Some(d)) => match self.direction {
                LaneDirection::Forward => Some((s, d)),
                LaneDirection::Backward => Some((d, s)),
            },
            _ => None,
        }
    }

    /// The intersection at which travel along the lane begins.
    pub fn origin(&self) -> (i: IntersectionID)
        ensures
            i == self.travel_src(),
    {
        match self.direction {
            LaneDirection::Forward => self.src_i,
            LaneDirection::Backward => self.dst_i,
        }
    }

    /// The intersection at which travel along the lane ends.
    pub fn destination(&self) -> (i: IntersectionID)
        ensures
            i == self.travel_dst(),
    {
        match self.direction {
            LaneDirection::Forward => self.dst_i,
            LaneDirection::Backward => self.src_i,
        }
    }

    /// Binds `node` at the end of the lane that `id` names.
    ///
    /// The intersection must be an end of the lane: binding a node anywhere
    /// else is a mistake of the caller. [`Lane::try_set_inter_node`] tests it.
    pub fn set_inter_node(&mut self, id: IntersectionID, node: NavNodeID)
        requires
            old(self).touches(id),
        ensures
            *final(self) == old(self).bound_at(id, node),
            final(self).node_at(id) == Some(node),
    {
        if id == self.src_i {
            self.src_node = Some(node);
        } else {
            self.dst_node = Some(node);
        }
    }

    /// The node bound at the end of the lane that `id` names.
    ///
    /// The intersection must be an end of the lane and a node must be bound
    /// there. [`Lane::try_get_inter_node`] tests both.
    pub fn get_inter_node(&self, id: IntersectionID) -> (node: NavNodeID)
        requires
            self.touches(id),
            self.node_at(id).is_some(),
        ensures
            self.node_at(id) == Some(node),
    {
        if id == self.src_i {
            self.src_node.unwrap()
        } else {
            self.dst_node.unwrap()
        }
    }

    /// Binds `node` at the end `id`, or reports that `id` is no end of the
    /// lane and leaves the lane as it was.
    pub fn try_set_inter_node(&mut self, id: IntersectionID, node: NavNodeID) -> (res: Result<
        (),
        LaneError,
    >)
        ensures
            old(self).touches(id) ==> res == Ok::<(), LaneError>(()) && *final(self) == old(
                self,
            ).bound_at(id, node),
            !old(self).touches(id) ==> res == Err::<(), LaneError>(LaneError::NotAnEndpoint)
                && *final(self) == *old(self),
    {
        if id == self.src_i || id == self.dst_i {
            self.set_inter_node(id, node);
            Ok(())
        } else {
            Err(LaneError::NotAnEndpoint)
        }
    }

    /// The node bound at the end `id`, or the reason why there is none: `id`
    /// is no end of the lane, or it is one and nothing is bound there yet.
    pub fn try_get_inter_node(&self, id: IntersectionID) -> (res: Result<NavNodeID, LaneError>)
        ensures
            res == (if !self.touches(id) {
                Err::<NavNodeID, LaneError>(LaneError::NotAnEndpoint)
            } else {
                match self.node_at(id) {
                    Some(node) => Ok(node),
                    None => Err(LaneError::NodeUnbound),
                }
            }),
    {
        let bound = if id == self.src_i {
            self.src_node
        } else if id == self.dst_i {
            self.dst_node
        } else {
            return Err(LaneError::NotAnEndpoint);
        };
        match bound {
            Some(node) => Ok(node),
            None => Err(LaneError::NodeUnbound),
        }
    }
}

/// A node bound at an end of a lane is the node found at that end.
pub proof fn lemma_bound_node_is_found(lane: Lane, at: IntersectionID, node: NavNodeID)
    requires
        lane.touches(at),
    ensures
        lane.bound_at(at, node).touches(at),
        lane.bound_at(at, node).node_at(at) == Some(node),
{
}

/// Binding a node at one end of a lane leaves the other end as it was.
pub proof fn lemma_binding_keeps_other_end(
    lane: Lane,
    at: IntersectionID,
    other: IntersectionID,
    node: NavNodeID,
)
    requires
        lane.touches(at),
        lane.touches(other),
        other != at,
    ensures
        lane.bound_at(at, node).node_at(other) == lane.node_at(other),
{
}

/// At an intersection that is no end of a lane nothing is bound and nothing
/// is found.
pub proof fn lemma_no_node_elsewhere(lane: Lane, at: IntersectionID, node: NavNodeID)
    requires
        !lane.touches(at),
    ensures
        lane.bound_at(at, node) == lane,
        lane.node_at(at).is_none(),
{
}

/// Travelled the other way, a lane begins where it ended and ends where it
/// began: it points the opposite way between the same two nodes.
pub proof fn lemma_reversed_swaps_ends(lane: Lane)
    ensures
        lane.reversed().travel_ends() == match lane.travel_ends() {
            Some((from, to)) => Some((to, from)),
            None => None,
        },
        lane.reversed().travel_src() == lane.travel_dst(),
        lane.reversed().travel_dst() == lane.travel_src(),
{
}

} // verus!
