//! Intersections: the nodes of the topology graph.

use vstd::prelude::*;
use crate::ids::{IntersectionID, RoadID};
use crate::traffic_control::{TrafficControl, TrafficModel};
use crate::turn::Turn;

verus! {

/// Where an intersection lies.
///
/// The two coordinates are kept as the bit patterns of single-precision
/// numbers. The map stores them and hands them back; it never computes with
/// them.
#[derive(Clone, Copy, Debug, PartialEq, Eq, Structural)]
pub struct Position {
    pub x_bits: u32,
    pub y_bits: u32,
}

/// An intersection, with the roads that meet there, its traffic control and
/// the turns that were generated for it.
#[derive(Debug)]
pub struct Intersection {
    pub id: IntersectionID,
    pub pos: Position,
    pub roads: Vec<RoadID>,
    pub policy: TrafficControl,
    pub turns: Vec<Turn>,
}

/// What an [`Intersection`] holds, as mathematical values.
pub struct IntersectionModel {
    pub id: IntersectionID,
    pub pos: Position,
    pub roads: Seq<RoadID>,
    pub policy: TrafficModel,
    pub turns: Seq<Turn>,
}

impl IntersectionModel {
    /// An intersection at which no road arrives yet. It is uncontrolled.
    pub open spec fn isolated(id: IntersectionID, pos: Position) -> IntersectionModel {
        IntersectionModel {
            id,
            pos,
            roads: Seq::empty(),
            policy: TrafficModel::Uncontrolled,
            turns: Seq::empty(),
        }
    }

    /// The intersection with one more road.
    pub open spec fn with_road(self, road: RoadID) -> IntersectionModel {
        IntersectionModel { roads: self.roads.push(road), ..self }
    }

    /// The intersection without the given road and without turns.
    pub open spec fn without_road(self, road: RoadID) -> IntersectionModel {
        IntersectionModel { roads: self.roads.remove_value(road), turns: Seq::empty(), ..self }
    }

    /// The intersection with the given turns.
    pub open spec fn with_turns(self, turns: Seq<Turn>) -> IntersectionModel {
        IntersectionModel { turns, ..self }
    }

    /// The intersection with the given policy and without turns.
    pub open spec fn with_policy(self, policy: TrafficModel) -> IntersectionModel {
        IntersectionModel { policy, turns: Seq::empty(), ..self }
    }
}

impl View for Intersection {
    type V = IntersectionModel;

    open spec fn view(&self) -> IntersectionModel {
        IntersectionModel {
            id: self.id,
            pos: self.pos,
            roads: self.roads@,
            policy: self.policy@,
            turns: self.turns@,
        }
    }
}

impl Clone for Intersection {
    fn clone(&self) -> (x: Intersection)
        ensures
            x@ == self@,
    {
        Intersection {
            id: self.id,
            pos: self.pos,
            roads: self.roads.clone(),
            policy: self.policy.clone(),
            turns: self.turns.clone(),
        }
    }
}

impl Intersection {
    /// Takes `road` off the list of the roads that end here, and drops the
    /// turns.
    pub fn unlist(&mut self, road: RoadID)
        ensures
            final(self)@ == old(self)@.without_road(road),
    {
        self.turns.clear();
        let mut k: usize = 0;
        while k < self.roads.len()
            invariant
                k <= self.roads.len(),
                self.roads@ == old(self).roads@,
                self.turns@ == Seq::<Turn>::empty(),
                self.id == old(self).id,
                self.pos == old(self).pos,
                self.policy == old(self).policy,
                forall|j: int| 0 <= j < k ==> self.roads@[j] != road,
            decreases self.roads.len() - k,
        {
            if self.roads[k] == road {
                proof {
                    self.roads@.index_of_first_ensures(road);
                }
                let _ = self.roads.remove(k);
                return ;
            }
            k += 1;
        }
        proof {
            self.roads@.index_of_first_ensures(road);
        }
    }

    /// An intersection at which no road arrives yet. It is uncontrolled.
    pub fn new(id: IntersectionID, pos: Position) -> (x: Intersection)
        ensures
            x@ == IntersectionModel::isolated(id, pos),
    {
        Intersection {
            id,
            pos,
            roads: Vec::new(),
            policy: TrafficControl::Uncontrolled,
            turns: Vec::new(),
        }
    }
}

} // verus!
