use scale::error::LoadError;
use scale::ids::{IntersectionID, LaneID, NavNodeID, RoadID};
use scale::intersection::{Intersection, Position};
use scale::lane::{Lane, LaneDirection, LaneType};
use scale::map::RoadMap;
use scale::navmesh::NavNode;
use scale::road::Road;
use scale::snapshot::{occupied, Snapshot};
use scale::traffic_control::TrafficControl;

fn origin() -> Position {
    Position { x_bits: 0, y_bits: 0 }
}

/// Two intersections, one road from 0 to 1, one forward lane, nodes and
/// turns built.
fn small_map() -> RoadMap {
    let mut map = RoadMap::new();
    let a = map.add_intersection(origin());
    let b = map.add_intersection(Position { x_bits: 5.0f32.to_bits(), y_bits: 0 });
    let r = map.add_road(a, b).unwrap();
    map.add_lane(r, LaneType::Driving, LaneDirection::Forward).unwrap();
    map.rebuild(a).unwrap();
    map.rebuild(b).unwrap();
    map
}

fn assert_same(a: &RoadMap, b: &RoadMap) {
    assert_eq!(a.intersection_ids(), b.intersection_ids());
    assert_eq!(a.road_ids(), b.road_ids());
    assert_eq!(a.lane_ids(), b.lane_ids());
    assert_eq!(a.node_ids(), b.node_ids());
    for i in a.intersection_ids() {
        let (x, y) = (a.intersection(i).unwrap(), b.intersection(i).unwrap());
        assert_eq!(format!("{:?}", x), format!("{:?}", y));
    }
    for r in a.road_ids() {
        assert_eq!(format!("{:?}", a.road(r).unwrap()), format!("{:?}", b.road(r).unwrap()));
    }
    for l in a.lane_ids() {
        assert_eq!(a.lane(l), b.lane(l));
    }
    for n in a.node_ids() {
        assert_eq!(a.node(n), b.node(n));
    }
}

#[test]
fn a_record_gives_the_map_back() {
    let mut map = RoadMap::new();
    let c = map.add_intersection(origin());
    let a = map.add_intersection(Position { x_bits: 1, y_bits: 2 });
    let b = map.add_intersection(Position { x_bits: 3, y_bits: 4 });
    let r0 = map.add_road(a, c).unwrap();
    let r1 = map.add_road(c, b).unwrap();
    for r in [r0, r1] {
        map.add_lane(r, LaneType::Driving, LaneDirection::Forward).unwrap();
        map.add_lane(r, LaneType::Bus, LaneDirection::Backward).unwrap();
    }
    map.set_traffic_control(
        c,
        TrafficControl::Signal { phases: vec![vec![LaneID(0)], vec![LaneID(3)]], current: 0 },
    )
    .unwrap();
    map.set_traffic_control(a, TrafficControl::Priority { order: vec![LaneID(1)] }).unwrap();
    for i in map.intersection_ids() {
        map.rebuild(i).unwrap();
    }
    assert_eq!(map.intersection(c).unwrap().turns.len(), 1);
    let snap = map.snapshot();
    assert_eq!(snap.intersections.len(), 3);
    assert_eq!(snap.roads.len(), 2);
    assert_eq!(snap.lanes.len(), 4);
    assert_eq!(snap.nodes.len(), 8);
    assert_eq!(snap.lanes[2], map.lane(LaneID(2)));
    let back = RoadMap::restore(snap).unwrap();
    assert_same(&map, &back);
    assert_eq!(back.validate(), Ok(()));
}

#[test]
fn a_record_keeps_vacant_slots() {
    let mut map = RoadMap::new();
    let a = map.add_intersection(origin());
    let b = map.add_intersection(origin());
    let c = map.add_intersection(origin());
    let r0 = map.add_road(a, b).unwrap();
    let r1 = map.add_road(b, c).unwrap();
    map.add_lane(r0, LaneType::Driving, LaneDirection::Forward).unwrap();
    map.add_lane(r1, LaneType::Driving, LaneDirection::Forward).unwrap();
    for i in map.intersection_ids() {
        map.rebuild(i).unwrap();
    }
    map.remove_road(r0).unwrap();
    map.remove_intersection(a).unwrap();
    let snap = map.snapshot();
    assert!(snap.intersections[0].is_none());
    assert!(snap.roads[0].is_none());
    assert!(snap.lanes[0].is_none());
    assert_eq!(snap.lanes.len(), 2);
    assert_eq!(snap.nodes.iter().filter(|n| n.is_some()).count(), 2);
    let back = RoadMap::restore(snap).unwrap();
    assert_same(&map, &back);
    assert_eq!(back.lane_ids(), vec![LaneID(1)]);
    assert_eq!(back.road_ids(), vec![r1]);
    assert_eq!(back.intersection_ids(), vec![b, c]);
}

#[test]
fn an_empty_record_is_an_empty_map() {
    let snap = RoadMap::new().snapshot();
    assert!(snap.intersections.is_empty() && snap.roads.is_empty());
    assert!(snap.lanes.is_empty() && snap.nodes.is_empty());
    let back = RoadMap::restore(snap).unwrap();
    assert!(back.intersection_ids().is_empty());
}

#[test]
fn a_road_between_unknown_intersections_is_refused() {
    let snap = Snapshot {
        intersections: vec![],
        roads: vec![None, Some(Road::new(RoadID(1), IntersectionID(0), IntersectionID(1)))],
        lanes: vec![],
        nodes: vec![],
    };
    assert_eq!(RoadMap::restore(snap).err(), Some(LoadError::BadRoad(RoadID(1))));
}

#[test]
fn a_road_under_a_wrong_name_is_refused() {
    let mut snap = small_map().snapshot();
    snap.roads[0].as_mut().unwrap().id = RoadID(5);
    assert_eq!(RoadMap::restore(snap).err(), Some(LoadError::BadRoad(RoadID(0))));
}

#[test]
fn a_road_that_lists_a_lane_twice_is_refused() {
    let mut snap = small_map().snapshot();
    snap.roads[0].as_mut().unwrap().lanes_forward.push(LaneID(0));
    assert_eq!(RoadMap::restore(snap).err(), Some(LoadError::BadRoad(RoadID(0))));
}

#[test]
fn an_intersection_that_lists_a_stranger_is_refused() {
    let mut snap = small_map().snapshot();
    snap.intersections[1].as_mut().unwrap().roads.push(RoadID(8));
    assert_eq!(
        RoadMap::restore(snap).err(),
        Some(LoadError::BadIntersection(IntersectionID(1)))
    );
}

#[test]
fn recorded_turns_that_do_not_exist_are_refused() {
    let mut map = RoadMap::new();
    let c = map.add_intersection(origin());
    let a = map.add_intersection(origin());
    let b = map.add_intersection(origin());
    let r0 = map.add_road(a, c).unwrap();
    let r1 = map.add_road(c, b).unwrap();
    map.add_lane(r0, LaneType::Driving, LaneDirection::Forward).unwrap();
    map.add_lane(r1, LaneType::Driving, LaneDirection::Forward).unwrap();
    map.rebuild(c).unwrap();
    let mut snap = map.snapshot();
    let x: &mut Intersection = snap.intersections[0].as_mut().unwrap();
    assert_eq!(x.turns.len(), 1);
    x.policy = TrafficControl::Priority { order: vec![] };
    assert_eq!(
        RoadMap::restore(snap).err(),
        Some(LoadError::BadIntersection(IntersectionID(0)))
    );
}

#[test]
fn a_lane_of_a_missing_road_is_refused() {
    let lane = Lane {
        id: LaneID(0),
        parent: RoadID(0),
        lane_type: LaneType::Driving,
        src_i: IntersectionID(0),
        dst_i: IntersectionID(1),
        src_node: None,
        dst_node: None,
        direction: LaneDirection::Forward,
    };
    let snap = Snapshot {
        intersections: vec![],
        roads: vec![],
        lanes: vec![Some(lane)],
        nodes: vec![],
    };
    assert_eq!(RoadMap::restore(snap).err(), Some(LoadError::BadLane(LaneID(0))));
}

#[test]
fn a_lane_bound_to_a_missing_node_is_refused() {
    let mut map = RoadMap::new();
    let a = map.add_intersection(origin());
    let b = map.add_intersection(origin());
    let r = map.add_road(a, b).unwrap();
    map.add_lane(r, LaneType::Driving, LaneDirection::Forward).unwrap();
    let mut snap = map.snapshot();
    snap.lanes[0].as_mut().unwrap().src_node = Some(NavNodeID(3));
    assert_eq!(RoadMap::restore(snap).err(), Some(LoadError::BadLane(LaneID(0))));
}

#[test]
fn a_node_of_a_missing_lane_is_refused() {
    let snap = Snapshot {
        intersections: vec![],
        roads: vec![],
        lanes: vec![],
        nodes: vec![
            None,
            Some(NavNode { id: NavNodeID(1), lane: LaneID(0), at: IntersectionID(0) }),
        ],
    };
    assert_eq!(RoadMap::restore(snap).err(), Some(LoadError::BadNode(NavNodeID(1))));
}

#[test]
fn a_node_that_its_lane_does_not_know_is_refused() {
    let mut map = RoadMap::new();
    let a = map.add_intersection(origin());
    let b = map.add_intersection(origin());
    let r = map.add_road(a, b).unwrap();
    let l = map.add_lane(r, LaneType::Driving, LaneDirection::Forward).unwrap();
    let mut snap = map.snapshot();
    snap.nodes.push(Some(NavNode { id: NavNodeID(0), lane: l, at: a }));
    assert_eq!(RoadMap::restore(snap).err(), Some(LoadError::BadNode(NavNodeID(0))));
}

#[test]
fn checks_name_what_breaks_the_rules() {
    let map = small_map();
    assert!(map.check_road(RoadID(0)));
    assert!(map.check_intersection(IntersectionID(0)));
    assert!(map.check_lane(LaneID(0)));
    assert!(map.check_node(NavNodeID(0)));
    assert!(map.check_node(NavNodeID(1)));
    assert!(!map.check_road(RoadID(1)));
    assert!(!map.check_intersection(IntersectionID(2)));
    assert!(!map.check_lane(LaneID(1)));
    assert!(!map.check_node(NavNodeID(2)));
}

#[test]
fn occupied_slots_from_the_top() {
    let (slots, entities) = occupied(vec![Some('a'), None, Some('c'), None]);
    assert_eq!(slots, vec![2, 0]);
    assert_eq!(entities, vec!['c', 'a']);
    let (slots, entities) = occupied::<u8>(vec![]);
    assert!(slots.is_empty() && entities.is_empty());
}
