use cgmath::{InnerSpace, Vector2};
use scale::error::MapError;
use scale::ids::{IntersectionID, LaneID, NavNodeID, RoadID};
use scale::intersection::Position;
use scale::lane::{LaneDirection, LaneType};
use scale::map::RoadMap;
use scale::navmesh::NavNode;
use scale::traffic_control::{TrafficControl, TurnPermission};
use scale::traversable::{Segment, Traversable, TraversableKind, TurnID};
use scale::turn::Turn;

fn pos(x: f32, y: f32) -> Position {
    Position { x_bits: x.to_bits(), y_bits: y.to_bits() }
}

/// Three roads meet at the intersection 0: two arrive from 1 and 2, one
/// leaves for 3. Each has a forward and a backward driving lane.
fn three_way() -> (RoadMap, IntersectionID) {
    let mut map = RoadMap::new();
    let c = map.add_intersection(pos(0.0, 0.0));
    let a = map.add_intersection(pos(-10.0, 0.0));
    let b = map.add_intersection(pos(0.0, 10.0));
    let d = map.add_intersection(pos(10.0, 0.0));
    let r0 = map.add_road(a, c).unwrap();
    let r1 = map.add_road(b, c).unwrap();
    let r2 = map.add_road(c, d).unwrap();
    for r in [r0, r1, r2] {
        map.add_lane(r, LaneType::Driving, LaneDirection::Forward).unwrap();
        map.add_lane(r, LaneType::Driving, LaneDirection::Backward).unwrap();
    }
    (map, c)
}

fn pairs(turns: &[Turn]) -> Vec<(usize, usize)> {
    turns.iter().map(|t| (t.src.0, t.dst.0)).collect()
}

#[test]
fn new_map_is_empty() {
    let map = RoadMap::new();
    assert!(map.lane_ids().is_empty());
    assert!(map.road_ids().is_empty());
    assert!(map.intersection_ids().is_empty());
    assert!(map.node_ids().is_empty());
    assert_eq!(map.validate(), Ok(()));
}

#[test]
fn one_road_one_forward_lane() {
    let mut map = RoadMap::new();
    let a = map.add_intersection(pos(0.0, 0.0));
    let b = map.add_intersection(pos(10.0, 0.0));
    let r = map.add_road(a, b).unwrap();
    let l = map.add_lane(r, LaneType::Driving, LaneDirection::Forward).unwrap();
    assert_eq!(map.lane(l).unwrap().travel_nodes(), None);
    assert_eq!(map.build_nav_nodes(a), Ok(()));
    assert_eq!(map.build_nav_nodes(b), Ok(()));
    let lane = map.lane(l).unwrap();
    let na = lane.get_inter_node(a);
    let nb = lane.get_inter_node(b);
    assert_ne!(na, nb);
    assert_eq!(lane.travel_nodes(), Some((na, nb)));
    assert_eq!(map.node(na), Some(NavNode { id: na, lane: l, at: a }));
    assert_eq!(map.node(nb), Some(NavNode { id: nb, lane: l, at: b }));
    assert_eq!(map.node_ids(), vec![na, nb]);
    // The lane points from the node at `a` towards the node at `b`; travelled
    // backward it points the other way between the same two nodes.
    let centre = |n: NavNodeID| {
        let p = map.intersection(map.node(n).unwrap().at).unwrap().pos;
        Vector2::new(f32::from_bits(p.x_bits), f32::from_bits(p.y_bits))
    };
    let (start, end) = lane.travel_nodes().unwrap();
    let forward = (centre(end) - centre(start)).normalize();
    assert!((forward.magnitude() - 1.0).abs() < 1e-6);
    assert_eq!(forward, Vector2::new(1.0, 0.0));
    let mut reversed = lane;
    reversed.direction = LaneDirection::Backward;
    let (start, end) = reversed.travel_nodes().unwrap();
    let backward = (centre(end) - centre(start)).normalize();
    assert_eq!(backward, -forward);
    assert_eq!(map.validate(), Ok(()));
}

#[test]
fn identifiers_are_arena_slots() {
    let mut map = RoadMap::new();
    let a = map.add_intersection(pos(0.0, 0.0));
    let b = map.add_intersection(pos(1.0, 0.0));
    assert_eq!((a, b), (IntersectionID(0), IntersectionID(1)));
    let r = map.add_road(a, b).unwrap();
    assert_eq!(r, RoadID(0));
    let l0 = map.add_lane(r, LaneType::Driving, LaneDirection::Forward).unwrap();
    let l1 = map.add_lane(r, LaneType::Biking, LaneDirection::Backward).unwrap();
    let l2 = map.add_lane(r, LaneType::Bus, LaneDirection::Forward).unwrap();
    assert_eq!((l0, l1, l2), (LaneID(0), LaneID(1), LaneID(2)));
    let road = map.road(r).unwrap();
    assert_eq!(road.lanes_forward, vec![l0, l2]);
    assert_eq!(road.lanes_backward, vec![l1]);
    assert_eq!(road.src, a);
    assert_eq!(road.dst, b);
    assert_eq!(map.intersection(a).unwrap().roads, vec![r]);
    assert_eq!(map.intersection(b).unwrap().roads, vec![r]);
    let lane = map.lane(l1).unwrap();
    assert_eq!(lane.id, l1);
    assert_eq!(lane.parent, r);
    assert_eq!(lane.lane_type, LaneType::Biking);
    assert_eq!(lane.direction, LaneDirection::Backward);
    assert_eq!((lane.src_i, lane.dst_i), (a, b));
    assert_eq!(map.lane_ids(), vec![l0, l1, l2]);
}

#[test]
fn add_road_refusals() {
    let mut map = RoadMap::new();
    let a = map.add_intersection(pos(0.0, 0.0));
    let ghost = IntersectionID(9);
    assert_eq!(map.add_road(ghost, a), Err(MapError::UnknownIntersection(ghost)));
    assert_eq!(map.add_road(a, ghost), Err(MapError::UnknownIntersection(ghost)));
    assert_eq!(map.add_road(a, a), Err(MapError::LoopRoad(a)));
    assert!(map.road_ids().is_empty());
    assert!(map.intersection(a).unwrap().roads.is_empty());
}

#[test]
fn add_lane_needs_the_road() {
    let mut map = RoadMap::new();
    assert_eq!(
        map.add_lane(RoadID(3), LaneType::Driving, LaneDirection::Forward),
        Err(MapError::UnknownRoad(RoadID(3)))
    );
    assert!(map.lane_ids().is_empty());
}

#[test]
fn uncontrolled_three_way_turns() {
    let (mut map, c) = three_way();
    assert_eq!(map.rebuild(c), Ok(()));
    let turns = map.intersection(c).unwrap().turns.clone();
    assert_eq!(pairs(&turns), vec![(0, 3), (0, 4), (2, 1), (2, 4), (5, 1), (5, 3)]);
    for t in &turns {
        assert_eq!(t.parent, c);
        assert_eq!(t.permission, TurnPermission::Free);
        let src = map.lane(t.src).unwrap();
        let dst = map.lane(t.dst).unwrap();
        assert_ne!(src.parent, dst.parent);
        assert_eq!(src.destination(), c);
        assert_eq!(dst.origin(), c);
        assert_eq!(t.src_node, src.get_inter_node(c));
        assert_eq!(t.dst_node, dst.get_inter_node(c));
    }
    assert_eq!(
        turns[0],
        Turn {
            src: LaneID(0),
            dst: LaneID(3),
            parent: c,
            src_node: NavNodeID(0),
            dst_node: NavNodeID(3),
            permission: TurnPermission::Free,
        }
    );
    assert_eq!(map.validate(), Ok(()));
}

#[test]
fn turns_join_lanes_of_one_kind_only() {
    let (mut map, c) = three_way();
    let bike_in = map.add_lane(RoadID(0), LaneType::Biking, LaneDirection::Forward).unwrap();
    let bike_out = map.add_lane(RoadID(2), LaneType::Biking, LaneDirection::Forward).unwrap();
    assert_eq!(map.rebuild(c), Ok(()));
    let got = pairs(&map.intersection(c).unwrap().turns);
    assert_eq!(
        got,
        vec![(0, 3), (0, 4), (2, 1), (2, 4), (5, 1), (5, 3), (bike_in.0, bike_out.0)]
    );
}

#[test]
fn generating_twice_gives_the_same_turns() {
    let (mut map, c) = three_way();
    map.rebuild(c).unwrap();
    let first = map.intersection(c).unwrap().turns.clone();
    assert_eq!(map.generate_turns(c), Ok(()));
    assert_eq!(map.intersection(c).unwrap().turns, first);
    assert_eq!(map.rebuild(c), Ok(()));
    assert_eq!(map.intersection(c).unwrap().turns, first);
    assert_eq!(map.node_ids().len(), 6);
}

#[test]
fn building_twice_keeps_the_nodes() {
    let (mut map, c) = three_way();
    map.build_nav_nodes(c).unwrap();
    let nodes = map.node_ids();
    let lanes: Vec<_> = map.lane_ids().into_iter().map(|l| map.lane(l).unwrap()).collect();
    map.build_nav_nodes(c).unwrap();
    assert_eq!(map.node_ids(), nodes);
    let again: Vec<_> = map.lane_ids().into_iter().map(|l| map.lane(l).unwrap()).collect();
    assert_eq!(again, lanes);
    assert_eq!(nodes.len(), 6);
}

#[test]
fn turns_need_the_nodes() {
    let (mut map, c) = three_way();
    assert_eq!(map.generate_turns(c), Err(MapError::LaneUnbound(LaneID(0))));
    assert!(map.intersection(c).unwrap().turns.is_empty());
    assert_eq!(
        map.generate_turns(IntersectionID(77)),
        Err(MapError::UnknownIntersection(IntersectionID(77)))
    );
    assert_eq!(
        map.build_nav_nodes(IntersectionID(77)),
        Err(MapError::UnknownIntersection(IntersectionID(77)))
    );
    assert_eq!(
        map.rebuild(IntersectionID(77)),
        Err(MapError::UnknownIntersection(IntersectionID(77)))
    );
}

#[test]
fn a_new_lane_drops_the_turns_at_both_ends() {
    let (mut map, c) = three_way();
    map.rebuild(c).unwrap();
    map.rebuild(IntersectionID(1)).unwrap();
    assert_eq!(map.intersection(c).unwrap().turns.len(), 6);
    let l = map.add_lane(RoadID(1), LaneType::Driving, LaneDirection::Forward).unwrap();
    assert!(map.intersection(c).unwrap().turns.is_empty());
    assert_eq!(map.generate_turns(c), Err(MapError::LaneUnbound(l)));
    map.rebuild(c).unwrap();
    assert_eq!(
        pairs(&map.intersection(c).unwrap().turns),
        vec![(0, 3), (0, 4), (2, 1), (2, 4), (5, 1), (5, 3), (6, 1), (6, 4)]
    );
}

#[test]
fn priority_ranks_the_arriving_lanes() {
    let (mut map, c) = three_way();
    map.rebuild(c).unwrap();
    let policy = TrafficControl::Priority { order: vec![LaneID(2), LaneID(0), LaneID(2)] };
    assert_eq!(map.set_traffic_control(c, policy), Ok(()));
    assert!(map.intersection(c).unwrap().turns.is_empty());
    map.generate_turns(c).unwrap();
    let turns = map.intersection(c).unwrap().turns.clone();
    assert_eq!(pairs(&turns), vec![(0, 3), (0, 4), (2, 1), (2, 4)]);
    assert_eq!(turns[0].permission, TurnPermission::Ranked(1));
    assert_eq!(turns[1].permission, TurnPermission::Ranked(1));
    assert_eq!(turns[2].permission, TurnPermission::Ranked(0));
    assert_eq!(turns[3].permission, TurnPermission::Ranked(0));
}

#[test]
fn signal_gives_green_to_the_current_phase() {
    let (mut map, c) = three_way();
    map.rebuild(c).unwrap();
    let phases = vec![vec![LaneID(0)], vec![LaneID(2), LaneID(5)]];
    map.set_traffic_control(c, TrafficControl::Signal { phases: phases.clone(), current: 1 })
        .unwrap();
    map.generate_turns(c).unwrap();
    let turns = map.intersection(c).unwrap().turns.clone();
    assert_eq!(pairs(&turns), vec![(2, 1), (2, 4), (5, 1), (5, 3)]);
    assert!(turns.iter().all(|t| t.permission == TurnPermission::Free));
    map.set_traffic_control(c, TrafficControl::Signal { phases: phases.clone(), current: 0 })
        .unwrap();
    map.generate_turns(c).unwrap();
    assert_eq!(pairs(&map.intersection(c).unwrap().turns), vec![(0, 3), (0, 4)]);
    map.set_traffic_control(c, TrafficControl::Signal { phases, current: 2 }).unwrap();
    map.generate_turns(c).unwrap();
    assert!(map.intersection(c).unwrap().turns.is_empty());
    assert_eq!(
        map.set_traffic_control(IntersectionID(50), TrafficControl::Uncontrolled),
        Err(MapError::UnknownIntersection(IntersectionID(50)))
    );
}

#[test]
fn removing_a_road_takes_its_lanes_and_nodes() {
    let (mut map, c) = three_way();
    for i in map.intersection_ids() {
        map.rebuild(i).unwrap();
    }
    assert_eq!(map.node_ids().len(), 12);
    assert_eq!(map.remove_road(RoadID(1)), Ok(()));
    assert_eq!(map.road_ids(), vec![RoadID(0), RoadID(2)]);
    assert_eq!(map.lane_ids(), vec![LaneID(0), LaneID(1), LaneID(4), LaneID(5)]);
    assert_eq!(map.node_ids().len(), 8);
    for n in map.node_ids() {
        let node = map.node(n).unwrap();
        assert_ne!(map.lane(node.lane).unwrap().parent, RoadID(1));
    }
    assert_eq!(map.intersection(c).unwrap().roads, vec![RoadID(0), RoadID(2)]);
    assert!(map.intersection(c).unwrap().turns.is_empty());
    assert!(map.intersection(IntersectionID(2)).unwrap().roads.is_empty());
    assert_eq!(map.lane(LaneID(2)), None);
    assert_eq!(map.remove_road(RoadID(1)), Err(MapError::UnknownRoad(RoadID(1))));
    assert_eq!(map.validate(), Ok(()));
    map.rebuild(c).unwrap();
    assert_eq!(pairs(&map.intersection(c).unwrap().turns), vec![(0, 4), (5, 1)]);
    // The freed slots are taken by the next road and its lanes.
    let r = map.add_road(IntersectionID(2), c).unwrap();
    assert_eq!(r, RoadID(1));
    let l = map.add_lane(r, LaneType::Driving, LaneDirection::Forward).unwrap();
    assert!(l == LaneID(2) || l == LaneID(3));
    assert_eq!(map.validate(), Ok(()));
}

#[test]
fn removing_an_intersection() {
    let (mut map, c) = three_way();
    assert_eq!(map.remove_intersection(c), Err(MapError::IntersectionInUse(c)));
    assert_eq!(
        map.remove_intersection(IntersectionID(40)),
        Err(MapError::UnknownIntersection(IntersectionID(40)))
    );
    map.remove_road(RoadID(1)).unwrap();
    assert_eq!(map.remove_intersection(IntersectionID(2)), Ok(()));
    assert_eq!(
        map.intersection_ids(),
        vec![IntersectionID(0), IntersectionID(1), IntersectionID(3)]
    );
    assert!(map.intersection(IntersectionID(2)).is_none());
    assert_eq!(map.validate(), Ok(()));
}

#[test]
fn handles_resolve_to_segments() {
    let (mut map, c) = three_way();
    assert_eq!(map.resolve(Traversable::Lane(LaneID(0))), None);
    for i in map.intersection_ids() {
        map.rebuild(i).unwrap();
    }
    let forward = map.lane(LaneID(0)).unwrap();
    assert_eq!(
        map.resolve(Traversable::Lane(LaneID(0))),
        Some(Segment {
            start: forward.src_node.unwrap(),
            end: forward.dst_node.unwrap(),
            kind: TraversableKind::Lane(LaneType::Driving),
        })
    );
    let backward = map.lane(LaneID(1)).unwrap();
    assert_eq!(
        map.resolve(Traversable::Lane(LaneID(1))),
        Some(Segment {
            start: backward.dst_node.unwrap(),
            end: backward.src_node.unwrap(),
            kind: TraversableKind::Lane(LaneType::Driving),
        })
    );
    let turn = map.intersection(c).unwrap().turns[1];
    assert_eq!(turn.id(), TurnID { parent: c, src: LaneID(0), dst: LaneID(4) });
    assert_eq!(
        map.resolve(Traversable::Turn(turn.id())),
        Some(Segment {
            start: turn.src_node,
            end: turn.dst_node,
            kind: TraversableKind::Turn(TurnPermission::Free),
        })
    );
    let uturn = TurnID { parent: c, src: LaneID(0), dst: LaneID(1) };
    assert_eq!(map.resolve(Traversable::Turn(uturn)), None);
    assert_eq!(map.resolve(Traversable::Lane(LaneID(99))), None);
    let nowhere = TurnID { parent: IntersectionID(99), src: LaneID(0), dst: LaneID(4) };
    assert_eq!(map.resolve(Traversable::Turn(nowhere)), None);
}

#[test]
fn rebuilding_everything() {
    let (mut map, c) = three_way();
    map.rebuild_all();
    assert_eq!(map.node_ids().len(), 12);
    for l in map.lane_ids() {
        let lane = map.lane(l).unwrap();
        let (from, to) = lane.travel_nodes().unwrap();
        assert_ne!(from, to);
        assert_eq!(map.node(from).unwrap().at, lane.origin());
        assert_eq!(map.node(to).unwrap().at, lane.destination());
    }
    assert_eq!(
        pairs(&map.intersection(c).unwrap().turns),
        vec![(0, 3), (0, 4), (2, 1), (2, 4), (5, 1), (5, 3)]
    );
    // At a dead end the only way on is back along the same road.
    assert!(map.intersection(IntersectionID(1)).unwrap().turns.is_empty());
    let nodes = map.node_ids();
    let turns = map.intersection(c).unwrap().turns.clone();
    map.rebuild_all();
    assert_eq!(map.node_ids(), nodes);
    assert_eq!(map.intersection(c).unwrap().turns, turns);
    assert_eq!(map.validate(), Ok(()));
}
