use scale::ids::{IntersectionID, LaneID, NavNodeID, RoadID};
use scale::lane::{Lane, LaneDirection, LaneError, LaneType};
use scale::road::Road;
use slab::Slab;

fn sample_lane() -> Lane {
    Lane {
        id: LaneID(0),
        parent: RoadID(0),
        lane_type: LaneType::Driving,
        src_i: IntersectionID(3),
        dst_i: IntersectionID(7),
        src_node: None,
        dst_node: None,
        direction: LaneDirection::Forward,
    }
}

#[test]
fn set_then_get_at_source() {
    let mut lane = sample_lane();
    lane.set_inter_node(IntersectionID(3), NavNodeID(11));
    assert_eq!(lane.get_inter_node(IntersectionID(3)), NavNodeID(11));
    assert_eq!(lane.src_node, Some(NavNodeID(11)));
    assert_eq!(lane.dst_node, None);
}

#[test]
fn set_then_get_at_destination() {
    let mut lane = sample_lane();
    lane.set_inter_node(IntersectionID(7), NavNodeID(12));
    assert_eq!(lane.get_inter_node(IntersectionID(7)), NavNodeID(12));
    assert_eq!(lane.src_node, None);
    assert_eq!(lane.dst_node, Some(NavNodeID(12)));
}

#[test]
fn wrong_intersection_is_reported() {
    let mut lane = sample_lane();
    assert_eq!(
        lane.try_set_inter_node(IntersectionID(5), NavNodeID(1)),
        Err(LaneError::NotAnEndpoint)
    );
    assert_eq!(lane, sample_lane());
    assert_eq!(lane.try_get_inter_node(IntersectionID(5)), Err(LaneError::NotAnEndpoint));
}

#[test]
fn unbound_node_is_reported() {
    let mut lane = sample_lane();
    assert_eq!(lane.try_get_inter_node(IntersectionID(3)), Err(LaneError::NodeUnbound));
    assert_eq!(lane.try_set_inter_node(IntersectionID(3), NavNodeID(4)), Ok(()));
    assert_eq!(lane.try_get_inter_node(IntersectionID(3)), Ok(NavNodeID(4)));
    assert_eq!(lane.try_get_inter_node(IntersectionID(7)), Err(LaneError::NodeUnbound));
}

#[test]
fn make_forward_uses_the_vacant_slot() {
    let mut store: Slab<Lane> = Slab::new();
    let mut road = Road::new(RoadID(4), IntersectionID(1), IntersectionID(2));
    let vacant = store.vacant_key();
    let id = Lane::make_forward(&mut store, &mut road, LaneType::Bus);
    assert_eq!(id, LaneID(vacant));
    assert_eq!(road.lanes_forward, vec![id]);
    assert!(road.lanes_backward.is_empty());
    let lane = store[id.0];
    assert_eq!(lane.id, id);
    assert_eq!(lane.parent, RoadID(4));
    assert_eq!(lane.lane_type, LaneType::Bus);
    assert_eq!(lane.src_i, IntersectionID(1));
    assert_eq!(lane.dst_i, IntersectionID(2));
    assert_eq!(lane.src_node, None);
    assert_eq!(lane.dst_node, None);
    assert_eq!(lane.direction, LaneDirection::Forward);
}

#[test]
fn make_backward_reuses_a_freed_slot() {
    let mut store: Slab<Lane> = Slab::new();
    let mut road = Road::new(RoadID(0), IntersectionID(1), IntersectionID(2));
    let a = Lane::make_forward(&mut store, &mut road, LaneType::Driving);
    let b = Lane::make_forward(&mut store, &mut road, LaneType::Driving);
    assert_eq!((a, b), (LaneID(0), LaneID(1)));
    store.remove(0);
    let c = Lane::make_backward(&mut store, &mut road, LaneType::Biking);
    assert_eq!(c, LaneID(0));
    assert_eq!(road.lanes_forward, vec![a, b]);
    assert_eq!(road.lanes_backward, vec![c]);
    assert_eq!(store[0].direction, LaneDirection::Backward);
    assert_eq!(store[1].direction, LaneDirection::Forward);
    assert_eq!(store.len(), 2);
}

#[test]
fn travel_follows_the_direction() {
    let mut lane = sample_lane();
    assert_eq!(lane.origin(), IntersectionID(3));
    assert_eq!(lane.destination(), IntersectionID(7));
    assert_eq!(lane.travel_nodes(), None);
    lane.set_inter_node(IntersectionID(3), NavNodeID(20));
    assert_eq!(lane.travel_nodes(), None);
    lane.set_inter_node(IntersectionID(7), NavNodeID(21));
    assert_eq!(lane.travel_nodes(), Some((NavNodeID(20), NavNodeID(21))));
    lane.direction = LaneDirection::Backward;
    assert_eq!(lane.origin(), IntersectionID(7));
    assert_eq!(lane.destination(), IntersectionID(3));
    assert_eq!(lane.travel_nodes(), Some((NavNodeID(21), NavNodeID(20))));
}

#[test]
fn binding_again_replaces_the_node() {
    let mut lane = sample_lane();
    lane.set_inter_node(IntersectionID(3), NavNodeID(1));
    lane.set_inter_node(IntersectionID(3), NavNodeID(2));
    assert_eq!(lane.get_inter_node(IntersectionID(3)), NavNodeID(2));
}

#[test]
fn lanes_of_one_kind_connect() {
    assert!(LaneType::Driving.connects_to(LaneType::Driving));
    assert!(LaneType::Construction.connects_to(LaneType::Construction));
    assert!(!LaneType::Driving.connects_to(LaneType::Biking));
    assert!(!LaneType::Bus.connects_to(LaneType::Driving));
}
