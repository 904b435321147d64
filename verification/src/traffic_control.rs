//! Traffic control: the policy by which an intersection permits turns.

use vstd::prelude::*;
use crate::ids::LaneID;

verus! {

/// Under what condition a permitted turn may be taken.
#[derive(Clone, Copy, Debug, PartialEq, Eq, Structural)]
pub enum TurnPermission {
    /// Nothing restricts the turn.
    Free,
    /// The turn gives way to every turn of a lower rank. Rank 0 gives way to
    /// none.
    Ranked(usize),
}

/// The policy of one intersection.
///
/// The policy is asked, never changed, when turns are generated. Moving a
/// signal to its next phase is the business of the simulation that owns the
/// map: it installs the new policy and has the turns generated again.
#[derive(Debug)]
pub enum TrafficControl {
    /// Every turn is permitted and free.
    Uncontrolled,
    /// Arriving lanes are ranked by their first place in `order`. A turn out
    /// of a listed lane is permitted with the lane's rank; a turn out of any
    /// other lane is not permitted.
    Priority { order: Vec<LaneID> },
    /// A light with phases. In each phase the arriving lanes that the phase
    /// lists have green: a turn out of one of them is permitted and free, a
    /// turn out of any other lane is not permitted. Where `current` names no
    /// phase, nothing is permitted.
    Signal { phases: Vec<Vec<LaneID>>, current: usize },
}

/// What a [`TrafficControl`] holds, as mathematical values.
pub enum TrafficModel {
    Uncontrolled,
    Priority { order: Seq<LaneID> },
    Signal { phases: Seq<Seq<LaneID>>, current: usize },
}

impl TrafficModel {
    /// The permission of the turn from `incoming` to `outgoing`, or `None`
    /// where the policy does not permit the turn.
    pub open spec fn permission(self, incoming: LaneID, outgoing: LaneID) -> Option<
        TurnPermission,
    > {
        match self {
            TrafficModel::Uncontrolled => Some(TurnPermission::Free),
            TrafficModel::Priority { order } => match order.index_of_first(incoming) {
                Some(rank) => Some(TurnPermission::Ranked(rank as usize)),
                None => None,
            },
            TrafficModel::Signal { phases, current } => if current < phases.len()
                && phases[current as int].contains(incoming) {
                Some(TurnPermission::Free)
            } else {
                None
            },
        }
    }
}

impl View for TrafficControl {
    type V = TrafficModel;

    open spec fn view(&self) -> TrafficModel {
        match self {
            TrafficControl::Uncontrolled => TrafficModel::Uncontrolled,
            TrafficControl::Priority { order } => TrafficModel::Priority { order: order@ },
            TrafficControl::Signal { phases, current } => TrafficModel::Signal {
                phases: phases@.map_values(|phase: Vec<LaneID>| phase@),
                current: *current,
            },
        }
    }
}

/// The first place of `lane` in `lanes`, if it occurs there.
fn first_place(lanes: &Vec<LaneID>, lane: LaneID) -> (place: Option<usize>)
    ensures
        match place {
            Some(k) => lanes@.index_of_first(lane) == Some(k as int),
            None => lanes@.index_of_first(lane).is_none(),
        },
{
    let mut k: usize = 0;
    while k < lanes.len()
        invariant
            k <= lanes.len(),
            forall|j: int| 0 <= j < k ==> lanes@[j] != lane,
        decreases lanes.len() - k,
    {
        if lanes[k] == lane {
            proof {
                lanes@.index_of_first_ensures(lane);
            }
            return Some(k);
        }
        k += 1;
    }
    proof {
        lanes@.index_of_first_ensures(lane);
    }
    None
}

impl Clone for TrafficControl {
    fn clone(&self) -> (policy: TrafficControl)
        ensures
            policy@ == self@,
    {
        match self {
            TrafficControl::Uncontrolled => TrafficControl::Uncontrolled,
            TrafficControl::Priority { order } => TrafficControl::Priority {
                order: order.clone(),
            },
            TrafficControl::Signal { phases, current } => {
                let mut copy: Vec<Vec<LaneID>> = Vec::new();
                let mut k: usize = 0;
                while k < phases.len()
                    invariant
                        k <= phases.len(),
                        copy.len() == k,
                        forall|j: int| 0 <= j < k ==> (#[trigger] copy@[j])@ == phases@[j]@,
                    decreases phases.len() - k,
                {
                    copy.push(phases[k].clone());
                    k += 1;
                }
                let policy = TrafficControl::Signal { phases: copy, current: *current };
                assert(policy@->Signal_phases =~= self@->Signal_phases);
                policy
            },
        }
    }
}

impl TrafficControl {
    /// Asks the policy about the turn from `incoming` to `outgoing`: the
    /// permission under which it may be taken, or `None` where it may not.
    pub fn permission(&self, incoming: LaneID, outgoing: LaneID) -> (res: Option<TurnPermission>)
        ensures
            res == self@.permission(incoming, outgoing),
    {
        match self {
            TrafficControl::Uncontrolled => Some(TurnPermission::Free),
            TrafficControl::Priority { order } => match first_place(order, incoming) {
                Some(rank) => Some(TurnPermission::Ranked(rank)),
                None => None,
            },
            TrafficControl::Signal { phases, current } => {
                if *current < phases.len() {
                    let phase = &phases[*current];
                    assert(phase@ == self@->Signal_phases[*current as int]);
                    proof {
                        phase@.index_of_first_ensures(incoming);
                    }
                    match first_place(phase, incoming) {
                        Some(_) => Some(TurnPermission::Free),
                        None => None,
                    }
                } else {
                    None
                }
            },
        }
    }
}

} // verus!
