//! The mathematical model of a map, and the rules that every map obeys.
//!
//! A [`MapModel`] holds what the four arenas of a map hold, by slot. The
//! operations of a map are stated here as functions from model to model, and
//! each is proved to keep the rules of [`MapModel::wf`].

use vstd::prelude::*;
use crate::ids::{IntersectionID, LaneID, NavNodeID, RoadID};
use crate::intersection::{IntersectionModel, Position};
use crate::lane::{Lane, LaneDirection, LaneType};
use crate::navmesh::NavNode;
use crate::road::RoadModel;
use crate::traffic_control::TrafficModel;
use crate::turn::{is_turn_list, turn_allowed, turn_valid, has_turn, Turn};

verus! {

/// Every lane that has an end at `at` has a node bound there.
pub open spec fn all_bound_at(lanes: Map<usize, Lane>, at: IntersectionID) -> bool {
    forall|k: usize| #[trigger]
        lanes.dom().contains(k) && lanes[k].touches(at) ==> lanes[k].node_at(at).is_some()
}

/// The slot `k` holds a lane that ends at `at` and has no node bound there.
pub open spec fn unbound_at(lanes: Map<usize, Lane>, at: IntersectionID, k: usize) -> bool {
    lanes.dom().contains(k) && lanes[k].touches(at) && lanes[k].node_at(at).is_none()
}

/// The slot `k` is the lowest that holds a lane that ends at `at` and has no
/// node bound there.
pub open spec fn is_first_unbound(lanes: Map<usize, Lane>, at: IntersectionID, k: usize) -> bool {
    unbound_at(lanes, at, k) && forall|j: usize| j < k ==> !unbound_at(lanes, at, j)
}

/// The turns recorded for an intersection are in order: either none is
/// recorded, or every lane that ends at the intersection is bound there and
/// the record is the list of the turns at the intersection.
pub open spec fn turns_ok(
    lanes: Map<usize, Lane>,
    policy: TrafficModel,
    at: IntersectionID,
    turns: Seq<Turn>,
) -> bool {
    turns.len() > 0 ==> all_bound_at(lanes, at) && is_turn_list(lanes, policy, at, turns)
}

/// Seen from the intersection `at`, the two lanes are alike: they agree on
/// whether they begin or end there, on their road and kind, and on the node
/// bound there.
pub open spec fn same_facing(x: Lane, y: Lane, at: IntersectionID) -> bool {
    &&& x.touches(at) == y.touches(at)
    &&& (x.travel_src() == at) == (y.travel_src() == at)
    &&& (x.travel_dst() == at) == (y.travel_dst() == at)
    &&& x.parent == y.parent
    &&& x.lane_type == y.lane_type
    &&& x.node_at(at) == y.node_at(at)
}

/// Seen from the intersection `at`, the two sets of lanes are alike: the
/// same slots hold a lane with an end at `at`, and those lanes are alike.
pub open spec fn agree_at(l1: Map<usize, Lane>, l2: Map<usize, Lane>, at: IntersectionID) -> bool {
    &&& forall|k: usize| #[trigger]
        l1.dom().contains(k) && l1[k].touches(at) ==> l2.dom().contains(k) && same_facing(
            l1[k],
            l2[k],
            at,
        )
    &&& forall|k: usize| #[trigger]
        l2.dom().contains(k) && l2[k].touches(at) ==> l1.dom().contains(k) && same_facing(
            l1[k],
            l2[k],
            at,
        )
}

/// The turns at an intersection depend only on the lanes that end there:
/// the list of the turns for one set of lanes is the list for any set that
/// is alike seen from the intersection.
pub proof fn lemma_turn_list_frame(
    l1: Map<usize, Lane>,
    l2: Map<usize, Lane>,
    policy: TrafficModel,
    at: IntersectionID,
    turns: Seq<Turn>,
)
    requires
        agree_at(l1, l2, at),
        all_bound_at(l1, at),
        is_turn_list(l1, policy, at, turns),
    ensures
        all_bound_at(l2, at),
        is_turn_list(l2, policy, at, turns),
{
    assert forall|k: usize| #[trigger]
        l2.dom().contains(k) && l2[k].touches(at) implies l2[k].node_at(at).is_some() by {
        assert(l1.dom().contains(k));
    }
    assert forall|k: int| 0 <= k < turns.len() implies turn_valid(
        l2,
        policy,
        at,
        #[trigger] turns[k],
    ) by {
        assert(turn_valid(l1, policy, at, turns[k]));
        assert(l1.dom().contains(turns[k].src.0));
        assert(l1.dom().contains(turns[k].dst.0));
    }
    assert forall|a: LaneID, b: LaneID| #[trigger]
        turn_allowed(l2, policy, at, a, b) implies has_turn(turns, a, b) by {
        assert(l2.dom().contains(a.0));
        assert(l2.dom().contains(b.0));
        assert(turn_allowed(l1, policy, at, a, b));
    }
}

/// The same, for the turns recorded at an intersection.
pub proof fn lemma_turns_frame(
    l1: Map<usize, Lane>,
    l2: Map<usize, Lane>,
    policy: TrafficModel,
    at: IntersectionID,
    turns: Seq<Turn>,
)
    requires
        agree_at(l1, l2, at),
        turns_ok(l1, policy, at, turns),
    ensures
        turns_ok(l2, policy, at, turns),
{
    if turns.len() > 0 {
        lemma_turn_list_frame(l1, l2, policy, at, turns);
    }
}

/// One lane before and after nodes were built anywhere: it is as it was but
/// for its nodes, and a node that was bound is still bound.
pub open spec fn lane_grew(before: Lane, after: Lane) -> bool {
    &&& after == (Lane { src_node: after.src_node, dst_node: after.dst_node, ..before })
    &&& before.src_node.is_some() ==> after.src_node == before.src_node
    &&& before.dst_node.is_some() ==> after.dst_node == before.dst_node
}

/// One lane before and after nodes were bound at `at`: it is as it was, or
/// it had no node at `at` and got one that the mesh did not hold before.
pub open spec fn lane_rebound(
    before: Lane,
    after: Lane,
    at: IntersectionID,
    old_nodes: Map<usize, NavNode>,
) -> bool {
    ||| after == before
    ||| {
        &&& before.touches(at)
        &&& before.node_at(at).is_none()
        &&& after.node_at(at) matches Some(n)
        &&& !old_nodes.dom().contains(n.0)
        &&& after == before.bound_at(at, n)
    }
}

/// The first `k` lanes of `list` have a node bound at `at`.
pub open spec fn bound_prefix(
    lanes: Map<usize, Lane>,
    list: Seq<LaneID>,
    k: int,
    at: IntersectionID,
) -> bool {
    forall|j: int| 0 <= j < k ==> lanes[(#[trigger] list[j]).0].node_at(at).is_some()
}

/// Every lane of the road has a node bound at `at`.
pub open spec fn road_bound(lanes: Map<usize, Lane>, road: RoadModel, at: IntersectionID) -> bool {
    &&& bound_prefix(lanes, road.lanes_forward, road.lanes_forward.len() as int, at)
    &&& bound_prefix(lanes, road.lanes_backward, road.lanes_backward.len() as int, at)
}

/// `keys` lists the slots of `dom`, each once, in rising order.
pub open spec fn lists_slots(keys: Seq<usize>, dom: Set<usize>) -> bool {
    &&& forall|p: int, q: int| 0 <= p < q < keys.len() ==> keys[p] < keys[q]
    &&& forall|k: usize| dom.contains(k) <==> keys.contains(k)
}

/// The node in slot `x` is bound to the lane, at one end or the other.
pub open spec fn lane_has_node(lane: Lane, x: usize) -> bool {
    lane.src_node == Some(NavNodeID(x)) || lane.dst_node == Some(NavNodeID(x))
}

/// The slots of the first `n` lanes of `list`.
pub open spec fn slots_of(list: Seq<LaneID>, n: int) -> Set<usize> {
    Set::new(|k: usize| exists|j: int| 0 <= j < n && (#[trigger] list[j]).0 == k)
}

/// The slots of the nodes bound to the first `n` lanes of `list`.
pub open spec fn nodes_of(lanes: Map<usize, Lane>, list: Seq<LaneID>, n: int) -> Set<usize> {
    Set::new(
        |x: usize| exists|j: int| 0 <= j < n && lane_has_node(lanes[(#[trigger] list[j]).0], x),
    )
}

/// Taking a value out of a list in which nothing occurs twice leaves the
/// other values, each still once.
pub proof fn lemma_remove_value<A>(s: Seq<A>, v: A)
    requires
        s.no_duplicates(),
    ensures
        s.remove_value(v).no_duplicates(),
        forall|x: A| #[trigger] s.remove_value(v).contains(x) <==> s.contains(x) && x != v,
{
    s.index_of_first_ensures(v);
    let t = s.remove_value(v);
    match s.index_of_first(v) {
        None => {},
        Some(i) => {
            s.remove_ensures(i);
            assert forall|a: int, b: int|
                0 <= a < t.len() && 0 <= b < t.len() && a != b implies t[a] != t[b] by {
                let a2 = if a < i { a } else { a + 1 };
                let b2 = if b < i { b } else { b + 1 };
                assert(t[a] == s[a2]);
                assert(t[b] == s[b2]);
            }
            assert forall|x: A| #[trigger] t.contains(x) <==> s.contains(x) && x != v by {
                if t.contains(x) {
                    let a = choose|a: int| 0 <= a < t.len() && t[a] == x;
                    let a2 = if a < i { a } else { a + 1 };
                    assert(t[a] == s[a2]);
                }
                if s.contains(x) && x != v {
                    let b = choose|b: int| 0 <= b < s.len() && s[b] == x;
                    let b2 = if b < i { b } else { b - 1 };
                    assert(t[b2] == s[b]);
                }
            }
        },
    }
}

/// What a map holds: its intersections, roads, lanes and navigation nodes,
/// each by the arena slot that names it.
pub struct MapModel {
    pub intersections: Map<usize, IntersectionModel>,
    pub roads: Map<usize, RoadModel>,
    pub lanes: Map<usize, Lane>,
    pub nodes: Map<usize, NavNode>,
}

impl MapModel {
    /// The map that holds nothing.
    pub open spec fn empty() -> MapModel {
        MapModel {
            intersections: Map::empty(),
            roads: Map::empty(),
            lanes: Map::empty(),
            nodes: Map::empty(),
        }
    }

    /// The map holds an intersection with this identifier.
    pub open spec fn has_intersection(self, i: IntersectionID) -> bool {
        self.intersections.dom().contains(i.0)
    }

    /// The map holds a road with this identifier.
    pub open spec fn has_road(self, r: RoadID) -> bool {
        self.roads.dom().contains(r.0)
    }

    /// The map holds a lane with this identifier.
    pub open spec fn has_lane(self, l: LaneID) -> bool {
        self.lanes.dom().contains(l.0)
    }

    /// The map holds a navigation node with this identifier.
    pub open spec fn has_node(self, n: NavNodeID) -> bool {
        self.nodes.dom().contains(n.0)
    }

    /// The intersection with this identifier.
    pub open spec fn intersection(self, i: IntersectionID) -> IntersectionModel {
        self.intersections[i.0]
    }

    /// The road with this identifier.
    pub open spec fn road(self, r: RoadID) -> RoadModel {
        self.roads[r.0]
    }

    /// The lane with this identifier.
    pub open spec fn lane(self, l: LaneID) -> Lane {
        self.lanes[l.0]
    }

    /// The navigation node with this identifier.
    pub open spec fn node(self, n: NavNodeID) -> NavNode {
        self.nodes[n.0]
    }

    /// `l` is a lane of the road `r` with the direction `d`.
    pub open spec fn lane_of(self, l: LaneID, r: RoadID, d: LaneDirection) -> bool {
        self.has_lane(l) && self.lane(l).parent == r && self.lane(l).direction == d
    }

    /// `r` is a road with an end at the intersection `i`.
    pub open spec fn road_at(self, r: RoadID, i: IntersectionID) -> bool {
        self.has_road(r) && (self.road(r).src == i || self.road(r).dst == i)
    }

    /// A node bound at the end `at` of the lane `l` is a node of the mesh
    /// that is recorded as that end.
    pub open spec fn end_wf(self, l: LaneID, at: IntersectionID, bound: Option<NavNodeID>) -> bool {
        bound matches Some(n) ==> self.has_node(n) && self.node(n).lane == l && self.node(n).at
            == at
    }

    /// The rules of a road: it is named by its slot, its ends are two
    /// different intersections of the map that both list it, and its lanes
    /// are lanes of the map that name it as their road, each listed once
    /// under its direction.
    pub open spec fn road_wf(self, r: RoadID) -> bool {
        let road = self.road(r);
        &&& road.id == r
        &&& road.src != road.dst
        &&& self.has_intersection(road.src)
        &&& self.has_intersection(road.dst)
        &&& self.intersection(road.src).roads.contains(r)
        &&& self.intersection(road.dst).roads.contains(r)
        &&& road.lanes_forward.no_duplicates()
        &&& road.lanes_backward.no_duplicates()
        &&& forall|k: int|
            0 <= k < road.lanes_forward.len() ==> self.lane_of(
                #[trigger] road.lanes_forward[k],
                r,
                LaneDirection::Forward,
            )
        &&& forall|k: int|
            0 <= k < road.lanes_backward.len() ==> self.lane_of(
                #[trigger] road.lanes_backward[k],
                r,
                LaneDirection::Backward,
            )
    }

    /// The rules of an intersection: it is named by its slot, the roads it
    /// lists are roads of the map that end there, each listed once, and its
    /// turns are in order.
    pub open spec fn intersection_wf(self, i: IntersectionID) -> bool {
        let x = self.intersection(i);
        &&& x.id == i
        &&& x.roads.no_duplicates()
        &&& forall|k: int| 0 <= k < x.roads.len() ==> self.road_at(#[trigger] x.roads[k], i)
        &&& turns_ok(self.lanes, x.policy, i, x.turns)
    }

    /// The rules of a lane: it is named by its slot, its road is a road of
    /// the map that lists it under its direction, its ends are the road's
    /// ends, and the nodes bound to it are nodes of the mesh recorded as its
    /// ends.
    pub open spec fn lane_wf(self, l: LaneID) -> bool {
        let lane = self.lane(l);
        let road = self.road(lane.parent);
        &&& lane.id == l
        &&& self.has_road(lane.parent)
        &&& lane.src_i == road.src
        &&& lane.dst_i == road.dst
        &&& match lane.direction {
            LaneDirection::Forward => road.lanes_forward.contains(l),
            LaneDirection::Backward => road.lanes_backward.contains(l),
        }
        &&& self.end_wf(l, lane.src_i, lane.src_node)
        &&& self.end_wf(l, lane.dst_i, lane.dst_node)
    }

    /// The rules of a node: it is named by its slot, and it is the node
    /// bound to its lane at its intersection.
    pub open spec fn node_wf(self, n: NavNodeID) -> bool {
        let node = self.node(n);
        &&& node.id == n
        &&& self.has_lane(node.lane)
        &&& self.lane(node.lane).node_at(node.at) == Some(n)
    }

    /// Every road keeps the rules of a road.
    pub open spec fn roads_wf(self) -> bool {
        forall|r: RoadID| #[trigger] self.has_road(r) ==> self.road_wf(r)
    }

    /// Every intersection keeps the rules of an intersection.
    pub open spec fn intersections_wf(self) -> bool {
        forall|i: IntersectionID| #[trigger] self.has_intersection(i) ==> self.intersection_wf(i)
    }

    /// Every lane keeps the rules of a lane.
    pub open spec fn lanes_wf(self) -> bool {
        forall|l: LaneID| #[trigger] self.has_lane(l) ==> self.lane_wf(l)
    }

    /// Every node keeps the rules of a node.
    pub open spec fn nodes_wf(self) -> bool {
        forall|n: NavNodeID| #[trigger] self.has_node(n) ==> self.node_wf(n)
    }

    /// The rules of a map: those of each of its roads, intersections, lanes
    /// and nodes.
    pub open spec fn wf(self) -> bool {
        &&& self.roads_wf()
        &&& self.intersections_wf()
        &&& self.lanes_wf()
        &&& self.nodes_wf()
    }

    /// The map with one more intersection, at which no road arrives.
    pub open spec fn add_intersection(self, id: IntersectionID, pos: Position) -> MapModel {
        MapModel {
            intersections: self.intersections.insert(id.0, IntersectionModel::isolated(id, pos)),
            ..self
        }
    }

    /// The map with one more road, from `src` to `dst`, without lanes.
    pub open spec fn add_road(self, id: RoadID, src: IntersectionID, dst: IntersectionID)
        -> MapModel {
        MapModel {
            roads: self.roads.insert(
                id.0,
                RoadModel {
                    id,
                    src,
                    dst,
                    lanes_forward: Seq::empty(),
                    lanes_backward: Seq::empty(),
                },
            ),
            intersections: self.intersections.insert(
                src.0,
                self.intersection(src).with_road(id),
            ).insert(dst.0, self.intersection(dst).with_road(id)),
            ..self
        }
    }

    /// The map with one more lane on the road `road`. The lane has no node
    /// bound, and the turns of the two intersections at the road's ends are
    /// dropped: they have to be generated again.
    pub open spec fn add_lane(
        self,
        id: LaneID,
        road: RoadID,
        lane_type: LaneType,
        direction: LaneDirection,
    ) -> MapModel {
        let r = self.road(road);
        MapModel {
            lanes: self.lanes.insert(id.0, Lane::fresh(id, r, lane_type, direction)),
            roads: self.roads.insert(
                road.0,
                match direction {
                    LaneDirection::Forward => RoadModel {
                        lanes_forward: r.lanes_forward.push(id),
                        ..r
                    },
                    LaneDirection::Backward => RoadModel {
                        lanes_backward: r.lanes_backward.push(id),
                        ..r
                    },
                },
            ),
            intersections: self.intersections.insert(
                r.src.0,
                self.intersection(r.src).with_turns(Seq::empty()),
            ).insert(r.dst.0, self.intersection(r.dst).with_turns(Seq::empty())),
            ..self
        }
    }

    /// The map with the new node `n` bound to the lane `lane` at its end
    /// `at`.
    pub open spec fn bind(self, lane: LaneID, at: IntersectionID, n: NavNodeID) -> MapModel {
        MapModel {
            lanes: self.lanes.insert(lane.0, self.lane(lane).bound_at(at, n)),
            nodes: self.nodes.insert(n.0, NavNode { id: n, lane, at }),
            ..self
        }
    }

    /// The map with `turns` recorded for the intersection `at`.
    pub open spec fn with_turns(self, at: IntersectionID, turns: Seq<Turn>) -> MapModel {
        MapModel {
            intersections: self.intersections.insert(
                at.0,
                self.intersection(at).with_turns(turns),
            ),
            ..self
        }
    }

    /// The map with `policy` as the traffic control of the intersection
    /// `at`. The turns of that intersection are dropped.
    pub open spec fn with_policy(self, at: IntersectionID, policy: TrafficModel) -> MapModel {
        MapModel {
            intersections: self.intersections.insert(
                at.0,
                self.intersection(at).with_policy(policy),
            ),
            ..self
        }
    }

    /// The map without the intersection `at`.
    pub open spec fn remove_intersection(self, at: IntersectionID) -> MapModel {
        MapModel { intersections: self.intersections.remove(at.0), ..self }
    }

    /// `next` is this map after some lanes got their node at `at`: roads and
    /// intersections are as they were, every lane is as it was or got a new
    /// node at `at`, every node is still there, and every new node lies at
    /// `at`.
    pub open spec fn nav_progress(self, next: MapModel, at: IntersectionID) -> bool {
        &&& next.intersections == self.intersections
        &&& next.roads == self.roads
        &&& next.lanes.dom() == self.lanes.dom()
        &&& forall|l: LaneID| #[trigger]
            self.has_lane(l) ==> lane_rebound(self.lane(l), next.lane(l), at, self.nodes)
        &&& forall|n: NavNodeID| #[trigger]
            self.has_node(n) ==> next.has_node(n) && next.node(n) == self.node(n)
        &&& forall|n: NavNodeID| #[trigger]
            next.has_node(n) && !self.has_node(n) ==> next.node(n).at == at
    }

    /// `next` is this map after the nodes at `at` were built: every lane
    /// that ends at `at` and had no node there got a new one, and nothing
    /// else changed.
    pub open spec fn nav_built(self, next: MapModel, at: IntersectionID) -> bool {
        self.nav_progress(next, at) && all_bound_at(next.lanes, at)
    }

    /// A map is itself after no lane got a node.
    pub proof fn lemma_nav_progress_refl(self, at: IntersectionID)
        ensures
            self.nav_progress(self, at),
    {
    }

    /// One more lane getting its node at `at` is progress still.
    pub proof fn lemma_nav_progress_step(
        self,
        cur: MapModel,
        lane: LaneID,
        at: IntersectionID,
        n: NavNodeID,
    )
        requires
            self.nav_progress(cur, at),
            cur.has_lane(lane),
            cur.lane(lane).touches(at),
            cur.lane(lane).node_at(at).is_none(),
            !cur.has_node(n),
        ensures
            self.nav_progress(cur.bind(lane, at, n), at),
    {
        let next = cur.bind(lane, at, n);
        assert(next.lanes.dom() =~= self.lanes.dom());
        assert forall|l: LaneID| #[trigger] self.has_lane(l) implies lane_rebound(
            self.lane(l),
            next.lane(l),
            at,
            self.nodes,
        ) by {
            assert(lane_rebound(self.lane(l), cur.lane(l), at, self.nodes));
            if l == lane {
                if self.has_node(n) {
                    assert(cur.has_node(n));
                }
            }
        }
        assert forall|x: NavNodeID| #[trigger] self.has_node(x) implies next.has_node(x)
            && next.node(x) == self.node(x) by {
            assert(cur.has_node(x));
        }
        assert forall|x: NavNodeID| #[trigger]
            next.has_node(x) && !self.has_node(x) implies next.node(x).at == at by {
            if x != n {
                assert(cur.has_node(x));
            }
        }
    }

    /// Once every road that ends at `at` has all its lanes bound there,
    /// every lane that ends at `at` is bound there.
    pub proof fn lemma_all_bound(self, at: IntersectionID)
        requires
            self.wf(),
            self.has_intersection(at),
            forall|j: int|
                0 <= j < self.intersection(at).roads.len() ==> road_bound(
                    self.lanes,
                    self.road(#[trigger] self.intersection(at).roads[j]),
                    at,
                ),
        ensures
            all_bound_at(self.lanes, at),
    {
        let roads = self.intersection(at).roads;
        assert forall|k: usize| #[trigger]
            self.lanes.dom().contains(k) && self.lanes[k].touches(at) implies self.lanes[k].node_at(
            at,
        ).is_some() by {
            let l = LaneID(k);
            assert(self.has_lane(l));
            assert(self.lane_wf(l));
            let lane = self.lane(l);
            assert(self.has_road(lane.parent));
            assert(self.road_wf(lane.parent));
            let road = self.road(lane.parent);
            assert(roads.contains(lane.parent));
            let j = choose|j: int| 0 <= j < roads.len() && roads[j] == lane.parent;
            assert(road_bound(self.lanes, self.road(roads[j]), at));
            match lane.direction {
                LaneDirection::Forward => {
                    let q = choose|q: int|
                        0 <= q < road.lanes_forward.len() && road.lanes_forward[q] == l;
                    assert(self.lanes[road.lanes_forward[q].0].node_at(at).is_some());
                },
                LaneDirection::Backward => {
                    let q = choose|q: int|
                        0 <= q < road.lanes_backward.len() && road.lanes_backward[q] == l;
                    assert(self.lanes[road.lanes_backward[q].0].node_at(at).is_some());
                },
            }
        }
    }

    /// The map without the road `road`: the road, its lanes and the nodes
    /// bound to them are gone, the two intersections at its ends no longer
    /// list it, and their turns are dropped.
    pub open spec fn remove_road(self, road: RoadID) -> MapModel {
        let r = self.road(road);
        MapModel {
            roads: self.roads.remove(road.0),
            lanes: Map::new(
                |k: usize| self.lanes.dom().contains(k) && self.lanes[k].parent != road,
                |k: usize| self.lanes[k],
            ),
            nodes: Map::new(
                |k: usize|
                    self.nodes.dom().contains(k) && self.lanes[self.nodes[k].lane.0].parent
                        != road,
                |k: usize| self.nodes[k],
            ),
            intersections: self.intersections.insert(
                r.src.0,
                self.intersection(r.src).without_road(road),
            ).insert(r.dst.0, self.intersection(r.dst).without_road(road)),
        }
    }

    /// The lanes of a road, forward then backward, are lanes of the map,
    /// each listed once. Without them and their nodes, the lanes and nodes
    /// of the map are those of the map without the road.
    pub proof fn lemma_road_lanes(self, road: RoadID, list: Seq<LaneID>)
        requires
            self.wf(),
            self.has_road(road),
            list == self.road(road).lanes_forward + self.road(road).lanes_backward,
        ensures
            list.no_duplicates(),
            forall|j: int|
                0 <= j < list.len() ==> self.lanes.dom().contains((#[trigger] list[j]).0),
            self.lanes.remove_keys(slots_of(list, list.len() as int)) == self.remove_road(
                road,
            ).lanes,
            self.nodes.remove_keys(nodes_of(self.lanes, list, list.len() as int))
                == self.remove_road(road).nodes,
    {
        let r = self.road(road);
        let fw = r.lanes_forward;
        let bw = r.lanes_backward;
        assert(self.road_wf(road));
        assert forall|j: int| 0 <= j < list.len() implies self.has_lane(#[trigger] list[j])
            && self.lane(list[j]).parent == road && self.lane(list[j]).direction == (if j
            < fw.len() {
            LaneDirection::Forward
        } else {
            LaneDirection::Backward
        }) by {
            if j < fw.len() {
                assert(list[j] == fw[j]);
                assert(self.lane_of(fw[j], road, LaneDirection::Forward));
            } else {
                assert(list[j] == bw[j - fw.len()]);
                assert(self.lane_of(bw[j - fw.len()], road, LaneDirection::Backward));
            }
        }
        assert forall|a: int, b: int|
            0 <= a < list.len() && 0 <= b < list.len() && a != b implies list[a] != list[b] by {
            assert(self.has_lane(list[a]));
            assert(self.has_lane(list[b]));
            if a < fw.len() && b < fw.len() {
                assert(fw[a] != fw[b]);
            } else if a >= fw.len() && b >= fw.len() {
                assert(bw[a - fw.len()] != bw[b - fw.len()]);
            }
        }
        assert forall|j: int| 0 <= j < list.len() implies self.lanes.dom().contains(
            (#[trigger] list[j]).0,
        ) by {
            assert(self.has_lane(list[j]));
        }
        // A lane is listed exactly when it is a lane of the road.
        assert forall|k: usize| self.lanes.dom().contains(k) implies (slots_of(
            list,
            list.len() as int,
        ).contains(k) <==> self.lanes[k].parent == road) by {
            let l = LaneID(k);
            assert(self.has_lane(l));
            assert(self.lane_wf(l));
            if self.lanes[k].parent == road {
                match self.lanes[k].direction {
                    LaneDirection::Forward => {
                        let q = choose|q: int| 0 <= q < fw.len() && fw[q] == l;
                        assert(list[q].0 == k);
                    },
                    LaneDirection::Backward => {
                        let q = choose|q: int| 0 <= q < bw.len() && bw[q] == l;
                        assert(list[q + fw.len()].0 == k);
                    },
                }
            }
            if slots_of(list, list.len() as int).contains(k) {
                let j = choose|j: int| 0 <= j < list.len() && (#[trigger] list[j]).0 == k;
                assert(self.has_lane(list[j]));
                assert(list[j] == l);
            }
        }
        assert(self.lanes.remove_keys(slots_of(list, list.len() as int)) =~= self.remove_road(
            road,
        ).lanes);
        // A node is bound to a listed lane exactly when its lane is a lane
        // of the road.
        assert forall|x: usize| self.nodes.dom().contains(x) implies (nodes_of(
            self.lanes,
            list,
            list.len() as int,
        ).contains(x) <==> self.lanes[self.nodes[x].lane.0].parent == road) by {
            let n = NavNodeID(x);
            assert(self.has_node(n));
            assert(self.node_wf(n));
            let l = self.node(n).lane;
            assert(self.has_lane(l));
            assert(self.lane_wf(l));
            if self.lane(l).parent == road {
                assert(slots_of(list, list.len() as int).contains(l.0));
                let j = choose|j: int| 0 <= j < list.len() && (#[trigger] list[j]).0 == l.0;
                assert(list[j] == l);
                assert(lane_has_node(self.lanes[list[j].0], x));
            }
            if nodes_of(self.lanes, list, list.len() as int).contains(x) {
                let j = choose|j: int|
                    0 <= j < list.len() && lane_has_node(self.lanes[(#[trigger] list[j]).0], x);
                assert(self.has_lane(list[j]));
                assert(self.lane_wf(list[j]));
            }
        }
        assert(self.nodes.remove_keys(nodes_of(self.lanes, list, list.len() as int))
            =~= self.remove_road(road).nodes);
    }

    /// Removing a road keeps the rules.
    pub proof fn lemma_remove_road_wf(self, road: RoadID)
        requires
            self.wf(),
            self.has_road(road),
        ensures
            self.remove_road(road).wf(),
    {
        let m2 = self.remove_road(road);
        let r = self.road(road);
        assert(self.road_wf(road));
        assert(self.intersection_wf(r.src));
        assert(self.intersection_wf(r.dst));
        lemma_remove_value(self.intersection(r.src).roads, road);
        lemma_remove_value(self.intersection(r.dst).roads, road);
        assert forall|q: RoadID| #[trigger] m2.has_road(q) implies m2.road_wf(q) by {
            assert(self.has_road(q));
            assert(self.road_wf(q));
            let rq = self.road(q);
            assert(m2.intersection(rq.src).roads.contains(q));
            assert(m2.intersection(rq.dst).roads.contains(q));
            assert forall|k: int| 0 <= k < rq.lanes_forward.len() implies m2.lane_of(
                #[trigger] rq.lanes_forward[k],
                q,
                LaneDirection::Forward,
            ) by {
                assert(self.lane_of(rq.lanes_forward[k], q, LaneDirection::Forward));
            }
            assert forall|k: int| 0 <= k < rq.lanes_backward.len() implies m2.lane_of(
                #[trigger] rq.lanes_backward[k],
                q,
                LaneDirection::Backward,
            ) by {
                assert(self.lane_of(rq.lanes_backward[k], q, LaneDirection::Backward));
            }
        }
        assert forall|i: IntersectionID| #[trigger]
            m2.has_intersection(i) implies m2.intersection_wf(i) by {
            assert(self.has_intersection(i));
            assert(self.intersection_wf(i));
            let x = self.intersection(i);
            let x2 = m2.intersection(i);
            assert forall|k: int| 0 <= k < x2.roads.len() implies m2.road_at(
                #[trigger] x2.roads[k],
                i,
            ) by {
                assert(x2.roads.contains(x2.roads[k]));
                assert(x.roads.contains(x2.roads[k]));
                let j = choose|j: int| 0 <= j < x.roads.len() && x.roads[j] == x2.roads[k];
                assert(self.road_at(x.roads[j], i));
            }
            if i != r.src && i != r.dst {
                assert forall|k: usize| #[trigger]
                    self.lanes.dom().contains(k) && self.lanes[k].touches(
                        i,
                    ) implies m2.lanes.dom().contains(k) by {
                    assert(self.has_lane(LaneID(k)));
                    assert(self.lane_wf(LaneID(k)));
                }
                assert(agree_at(self.lanes, m2.lanes, i));
                lemma_turns_frame(self.lanes, m2.lanes, x.policy, i, x.turns);
            }
        }
        assert forall|l: LaneID| #[trigger] m2.has_lane(l) implies m2.lane_wf(l) by {
            assert(self.has_lane(l));
            assert(self.lane_wf(l));
        }
        assert forall|n: NavNodeID| #[trigger] m2.has_node(n) implies m2.node_wf(n) by {
            assert(self.has_node(n));
            assert(self.node_wf(n));
        }
    }

    /// The intersection is up to date: every lane that ends there has its
    /// node there, and the turns recorded are the turns that exist.
    pub open spec fn up_to_date(self, at: IntersectionID) -> bool {
        &&& all_bound_at(self.lanes, at)
        &&& is_turn_list(
            self.lanes,
            self.intersection(at).policy,
            at,
            self.intersection(at).turns,
        )
    }

    /// `next` is this map after nodes were built and turns were generated:
    /// the roads are as they were, the intersections are as they were but
    /// for their turns, the lanes are as they were but for new nodes, and
    /// every node is still there.
    pub open spec fn extends(self, next: MapModel) -> bool {
        &&& next.roads == self.roads
        &&& next.intersections.dom() == self.intersections.dom()
        &&& forall|i: IntersectionID| #[trigger]
            self.has_intersection(i) ==> next.intersection(i) == self.intersection(
                i,
            ).with_turns(next.intersection(i).turns)
        &&& next.lanes.dom() == self.lanes.dom()
        &&& forall|l: LaneID| #[trigger]
            self.has_lane(l) ==> lane_grew(self.lane(l), next.lane(l))
        &&& forall|n: NavNodeID| #[trigger]
            self.has_node(n) ==> next.has_node(n) && next.node(n) == self.node(n)
    }

    /// Bringing one intersection up to date extends the map, and leaves
    /// every other intersection that was up to date so.
    pub proof fn lemma_rebuild_step(
        self,
        start: MapModel,
        next: MapModel,
        at: IntersectionID,
        other: IntersectionID,
    )
        requires
            start.extends(self),
            self.has_intersection(at),
            next.has_intersection(at),
            self.nav_built(next.with_turns(at, self.intersection(at).turns), at),
        ensures
            start.extends(next),
            other != at && self.has_intersection(other) && self.up_to_date(other)
                ==> next.up_to_date(other),
    {
        let mid = next.with_turns(at, self.intersection(at).turns);
        assert(mid.intersections == self.intersections);
        assert(next.intersections.dom() =~= self.intersections.dom()) by {
            assert(mid.intersections.dom() =~= next.intersections.dom().insert(at.0));
        }
        assert forall|i: IntersectionID| #[trigger]
            start.has_intersection(i) implies next.intersection(i) == start.intersection(
            i,
        ).with_turns(next.intersection(i).turns) by {
            assert(self.intersection(i) == start.intersection(i).with_turns(
                self.intersection(i).turns,
            ));
            assert(mid.intersection(i) == self.intersection(i));
        }
        assert forall|l: LaneID| #[trigger] start.has_lane(l) implies lane_grew(
            start.lane(l),
            next.lane(l),
        ) by {
            assert(lane_grew(start.lane(l), self.lane(l)));
            assert(self.has_lane(l));
            assert(lane_rebound(self.lane(l), mid.lane(l), at, self.nodes));
        }
        assert forall|n: NavNodeID| #[trigger] start.has_node(n) implies next.has_node(n)
            && next.node(n) == start.node(n) by {
            assert(self.has_node(n));
            assert(mid.has_node(n));
        }
        if other != at && self.has_intersection(other) && self.up_to_date(other) {
            assert forall|k: usize| #[trigger]
                self.lanes.dom().contains(k) && self.lanes[k].touches(
                    other,
                ) implies next.lanes.dom().contains(k) && same_facing(
                self.lanes[k],
                next.lanes[k],
                other,
            ) by {
                assert(self.has_lane(LaneID(k)));
                assert(lane_rebound(self.lane(LaneID(k)), mid.lane(LaneID(k)), at, self.nodes));
            }
            assert forall|k: usize| #[trigger]
                next.lanes.dom().contains(k) && next.lanes[k].touches(
                    other,
                ) implies self.lanes.dom().contains(k) && same_facing(
                self.lanes[k],
                next.lanes[k],
                other,
            ) by {
                assert(self.has_lane(LaneID(k)));
                assert(lane_rebound(self.lane(LaneID(k)), mid.lane(LaneID(k)), at, self.nodes));
            }
            assert(mid.intersection(other) == next.intersection(other));
            lemma_turn_list_frame(
                self.lanes,
                next.lanes,
                self.intersection(other).policy,
                other,
                self.intersection(other).turns,
            );
        }
    }

    /// Generating the turns of an intersection twice is the same as
    /// generating them once: the second list is the first, and recording it
    /// changes nothing.
    pub proof fn lemma_generate_twice(self, at: IntersectionID, first: Seq<Turn>, second: Seq<Turn>)
        requires
            self.has_intersection(at),
            is_turn_list(self.lanes, self.intersection(at).policy, at, first),
            is_turn_list(
                self.with_turns(at, first).lanes,
                self.with_turns(at, first).intersection(at).policy,
                at,
                second,
            ),
        ensures
            second == first,
            self.with_turns(at, first).with_turns(at, second) == self.with_turns(at, first),
    {
        crate::turn::lemma_turn_list_unique(
            self.lanes,
            self.intersection(at).policy,
            at,
            first,
            second,
        );
        assert(self.with_turns(at, first).with_turns(at, second).intersections
            =~= self.with_turns(at, first).intersections);
    }

    /// In a map that obeys the rules, no recorded turn joins two lanes of
    /// one road, every recorded turn is one that the intersection's policy
    /// permits, and it runs between the nodes that its two lanes have at the
    /// intersection.
    pub proof fn lemma_recorded_turn(self, at: IntersectionID, k: int)
        requires
            self.wf(),
            self.has_intersection(at),
            0 <= k < self.intersection(at).turns.len(),
        ensures
            ({
                let turn = self.intersection(at).turns[k];
                &&& self.has_lane(turn.src)
                &&& self.has_lane(turn.dst)
                &&& self.lane(turn.src).parent != self.lane(turn.dst).parent
                &&& self.lane(turn.src).travel_dst() == at
                &&& self.lane(turn.dst).travel_src() == at
                &&& self.intersection(at).policy.permission(turn.src, turn.dst) == Some(
                    turn.permission,
                )
                &&& self.lane(turn.src).node_at(at) == Some(turn.src_node)
                &&& self.lane(turn.dst).node_at(at) == Some(turn.dst_node)
                &&& turn.parent == at
            }),
    {
        assert(self.intersection_wf(at));
        let turns = self.intersection(at).turns;
        assert(turn_valid(self.lanes, self.intersection(at).policy, at, turns[k]));
    }

    /// Building the nodes of an intersection where every lane has its node
    /// changes nothing: building twice is the same as building once.
    pub proof fn lemma_build_twice(self, next: MapModel, at: IntersectionID)
        requires
            self.wf(),
            next.wf(),
            all_bound_at(self.lanes, at),
            self.nav_built(next, at),
        ensures
            next == self,
    {
        assert forall|k: usize| #[trigger]
            self.lanes.dom().contains(k) implies next.lanes[k] == self.lanes[k] by {
            assert(self.has_lane(LaneID(k)));
            assert(lane_rebound(self.lane(LaneID(k)), next.lane(LaneID(k)), at, self.nodes));
        }
        assert(next.lanes =~= self.lanes);
        assert forall|x: usize| #[trigger]
            next.nodes.dom().contains(x) implies self.nodes.dom().contains(x) by {
            let n = NavNodeID(x);
            assert(next.has_node(n));
            assert(next.node_wf(n));
            let l = next.node(n).lane;
            assert(self.has_lane(l));
            assert(self.lane_wf(l));
        }
        assert forall|x: usize| #[trigger]
            self.nodes.dom().contains(x) implies next.nodes.dom().contains(x) && next.nodes[x]
            == self.nodes[x] by {
            assert(self.has_node(NavNodeID(x)));
        }
        assert(next.nodes =~= self.nodes);
    }

    /// In a map that obeys the rules, the two ends of a lane never share a
    /// node.
    pub proof fn lemma_ends_differ(self, l: LaneID)
        requires
            self.wf(),
            self.has_lane(l),
            self.lane(l).src_node.is_some(),
        ensures
            self.lane(l).src_node != self.lane(l).dst_node,
            self.lane(l).src_i != self.lane(l).dst_i,
    {
        assert(self.lane_wf(l));
        assert(self.road_wf(self.lane(l).parent));
    }

    /// The empty map keeps the rules.
    pub proof fn lemma_empty_wf()
        ensures
            MapModel::empty().wf(),
    {
    }

    /// Adding an intersection keeps the rules.
    pub proof fn lemma_add_intersection_wf(self, id: IntersectionID, pos: Position)
        requires
            self.wf(),
            !self.has_intersection(id),
        ensures
            self.add_intersection(id, pos).wf(),
    {
        let m2 = self.add_intersection(id, pos);
        assert forall|r: RoadID| #[trigger] m2.has_road(r) implies m2.road_wf(r) by {
            assert(self.has_road(r));
        }
        assert forall|i: IntersectionID| #[trigger]
            m2.has_intersection(i) implies m2.intersection_wf(i) by {
            if i != id {
                assert(self.has_intersection(i));
            }
        }
        assert forall|l: LaneID| #[trigger] m2.has_lane(l) implies m2.lane_wf(l) by {
            assert(self.has_lane(l));
        }
        assert forall|n: NavNodeID| #[trigger] m2.has_node(n) implies m2.node_wf(n) by {
            assert(self.has_node(n));
        }
    }

    /// Adding a road between two different intersections of the map keeps
    /// the rules.
    pub proof fn lemma_add_road_wf(self, id: RoadID, src: IntersectionID, dst: IntersectionID)
        requires
            self.wf(),
            !self.has_road(id),
            self.has_intersection(src),
            self.has_intersection(dst),
            src != dst,
        ensures
            self.add_road(id, src, dst).wf(),
    {
        let m2 = self.add_road(id, src, dst);
        assert(self.intersection_wf(src));
        assert(self.intersection_wf(dst));
        let xs = self.intersection(src).roads;
        let xd = self.intersection(dst).roads;
        assert(xs.push(id)[xs.len() as int] == id);
        assert(xd.push(id)[xd.len() as int] == id);
        assert forall|r: RoadID| #[trigger] m2.has_road(r) implies m2.road_wf(r) by {
            if r != id {
                assert(self.has_road(r));
                assert(self.road_wf(r));
                let road = self.road(r);
                let ys = self.intersection(road.src).roads;
                let k = choose|k: int| 0 <= k < ys.len() && ys[k] == r;
                assert(ys.push(id)[k] == r);
                let yd = self.intersection(road.dst).roads;
                let j = choose|j: int| 0 <= j < yd.len() && yd[j] == r;
                assert(yd.push(id)[j] == r);
            }
        }
        assert forall|i: IntersectionID| #[trigger]
            m2.has_intersection(i) implies m2.intersection_wf(i) by {
            assert(self.has_intersection(i));
            assert(self.intersection_wf(i));
            let x = self.intersection(i);
            let x2 = m2.intersection(i);
            assert forall|k: int| 0 <= k < x2.roads.len() implies m2.road_at(
                #[trigger] x2.roads[k],
                i,
            ) by {
                if k < x.roads.len() {
                    assert(self.road_at(x.roads[k], i));
                }
            }
            assert forall|j: int, k: int|
                0 <= j < x2.roads.len() && 0 <= k < x2.roads.len() && j != k implies x2.roads[j]
                != x2.roads[k] by {
                if j < x.roads.len() {
                    assert(self.road_at(x.roads[j], i));
                }
                if k < x.roads.len() {
                    assert(self.road_at(x.roads[k], i));
                }
            }
        }
        assert forall|l: LaneID| #[trigger] m2.has_lane(l) implies m2.lane_wf(l) by {
            assert(self.has_lane(l));
        }
        assert forall|n: NavNodeID| #[trigger] m2.has_node(n) implies m2.node_wf(n) by {
            assert(self.has_node(n));
        }
    }

    /// Adding a lane to a road of the map keeps the rules.
    pub proof fn lemma_add_lane_wf(
        self,
        id: LaneID,
        road: RoadID,
        lane_type: LaneType,
        direction: LaneDirection,
    )
        requires
            self.wf(),
            self.has_road(road),
            !self.has_lane(id),
        ensures
            self.add_lane(id, road, lane_type, direction).wf(),
    {
        let m2 = self.add_lane(id, road, lane_type, direction);
        let r = self.road(road);
        assert(self.road_wf(road));
        let fw = r.lanes_forward;
        let bw = r.lanes_backward;
        assert(fw.push(id)[fw.len() as int] == id);
        assert(bw.push(id)[bw.len() as int] == id);
        assert forall|q: RoadID| #[trigger] m2.has_road(q) implies m2.road_wf(q) by {
            assert(self.has_road(q));
            assert(self.road_wf(q));
            let old_q = self.road(q);
            let new_q = m2.road(q);
            assert forall|k: int| 0 <= k < new_q.lanes_forward.len() implies m2.lane_of(
                #[trigger] new_q.lanes_forward[k],
                q,
                LaneDirection::Forward,
            ) by {
                if k < old_q.lanes_forward.len() {
                    assert(self.lane_of(old_q.lanes_forward[k], q, LaneDirection::Forward));
                }
            }
            assert forall|k: int| 0 <= k < new_q.lanes_backward.len() implies m2.lane_of(
                #[trigger] new_q.lanes_backward[k],
                q,
                LaneDirection::Backward,
            ) by {
                if k < old_q.lanes_backward.len() {
                    assert(self.lane_of(old_q.lanes_backward[k], q, LaneDirection::Backward));
                }
            }
            assert forall|j: int, k: int|
                0 <= j < new_q.lanes_forward.len() && 0 <= k < new_q.lanes_forward.len() && j
                    != k implies new_q.lanes_forward[j] != new_q.lanes_forward[k] by {
                if j < old_q.lanes_forward.len() {
                    assert(self.lane_of(old_q.lanes_forward[j], q, LaneDirection::Forward));
                }
                if k < old_q.lanes_forward.len() {
                    assert(self.lane_of(old_q.lanes_forward[k], q, LaneDirection::Forward));
                }
            }
            assert forall|j: int, k: int|
                0 <= j < new_q.lanes_backward.len() && 0 <= k < new_q.lanes_backward.len() && j
                    != k implies new_q.lanes_backward[j] != new_q.lanes_backward[k] by {
                if j < old_q.lanes_backward.len() {
                    assert(self.lane_of(old_q.lanes_backward[j], q, LaneDirection::Backward));
                }
                if k < old_q.lanes_backward.len() {
                    assert(self.lane_of(old_q.lanes_backward[k], q, LaneDirection::Backward));
                }
            }
        }
        assert forall|i: IntersectionID| #[trigger]
            m2.has_intersection(i) implies m2.intersection_wf(i) by {
            assert(self.has_intersection(i));
            assert(self.intersection_wf(i));
            let x = self.intersection(i);
            assert forall|k: int| 0 <= k < x.roads.len() implies m2.road_at(
                #[trigger] x.roads[k],
                i,
            ) by {
                assert(self.road_at(x.roads[k], i));
            }
            if i != r.src && i != r.dst {
                assert(agree_at(self.lanes, m2.lanes, i));
                lemma_turns_frame(self.lanes, m2.lanes, x.policy, i, x.turns);
            }
        }
        assert forall|l: LaneID| #[trigger] m2.has_lane(l) implies m2.lane_wf(l) by {
            if l != id {
                assert(self.has_lane(l));
                assert(self.lane_wf(l));
                let lane = self.lane(l);
                if lane.parent == road {
                    match lane.direction {
                        LaneDirection::Forward => {
                            let k = choose|k: int| 0 <= k < fw.len() && fw[k] == l;
                            assert(fw.push(id)[k] == l);
                        },
                        LaneDirection::Backward => {
                            let k = choose|k: int| 0 <= k < bw.len() && bw[k] == l;
                            assert(bw.push(id)[k] == l);
                        },
                    }
                }
            }
        }
        assert forall|n: NavNodeID| #[trigger] m2.has_node(n) implies m2.node_wf(n) by {
            assert(self.has_node(n));
            assert(self.node_wf(n));
        }
    }

    /// Binding a new node at an end of a lane that has none there keeps the
    /// rules.
    pub proof fn lemma_bind_wf(self, lane: LaneID, at: IntersectionID, n: NavNodeID)
        requires
            self.wf(),
            self.has_lane(lane),
            self.lane(lane).touches(at),
            self.lane(lane).node_at(at).is_none(),
            !self.has_node(n),
        ensures
            self.bind(lane, at, n).wf(),
    {
        let m2 = self.bind(lane, at, n);
        let old_lane = self.lane(lane);
        assert(self.lane_wf(lane));
        assert(self.road_wf(old_lane.parent));
        assert forall|q: RoadID| #[trigger] m2.has_road(q) implies m2.road_wf(q) by {
            assert(self.has_road(q));
            assert(self.road_wf(q));
            let road = self.road(q);
            assert forall|k: int| 0 <= k < road.lanes_forward.len() implies m2.lane_of(
                #[trigger] road.lanes_forward[k],
                q,
                LaneDirection::Forward,
            ) by {
                assert(self.lane_of(road.lanes_forward[k], q, LaneDirection::Forward));
            }
            assert forall|k: int| 0 <= k < road.lanes_backward.len() implies m2.lane_of(
                #[trigger] road.lanes_backward[k],
                q,
                LaneDirection::Backward,
            ) by {
                assert(self.lane_of(road.lanes_backward[k], q, LaneDirection::Backward));
            }
        }
        assert forall|i: IntersectionID| #[trigger]
            m2.has_intersection(i) implies m2.intersection_wf(i) by {
            assert(self.has_intersection(i));
            assert(self.intersection_wf(i));
            let x = self.intersection(i);
            if i == at {
                if x.turns.len() > 0 {
                    assert(self.lanes.dom().contains(lane.0));
                    assert(false);
                }
            } else {
                assert(agree_at(self.lanes, m2.lanes, i));
                lemma_turns_frame(self.lanes, m2.lanes, x.policy, i, x.turns);
            }
        }
        assert forall|l: LaneID| #[trigger] m2.has_lane(l) implies m2.lane_wf(l) by {
            assert(self.has_lane(l));
            assert(self.lane_wf(l));
        }
        assert forall|x: NavNodeID| #[trigger] m2.has_node(x) implies m2.node_wf(x) by {
            if x != n {
                assert(self.has_node(x));
                assert(self.node_wf(x));
            }
        }
    }

    /// Recording turns that are in order keeps the rules.
    pub proof fn lemma_with_turns_wf(self, at: IntersectionID, turns: Seq<Turn>)
        requires
            self.wf(),
            self.has_intersection(at),
            turns_ok(self.lanes, self.intersection(at).policy, at, turns),
        ensures
            self.with_turns(at, turns).wf(),
    {
        let m2 = self.with_turns(at, turns);
        assert(self.intersection_wf(at));
        assert forall|r: RoadID| #[trigger] m2.has_road(r) implies m2.road_wf(r) by {
            assert(self.has_road(r));
            assert(self.road_wf(r));
        }
        assert forall|i: IntersectionID| #[trigger]
            m2.has_intersection(i) implies m2.intersection_wf(i) by {
            assert(self.has_intersection(i));
            assert(self.intersection_wf(i));
            let x = self.intersection(i);
            assert forall|k: int| 0 <= k < x.roads.len() implies m2.road_at(
                #[trigger] x.roads[k],
                i,
            ) by {
                assert(self.road_at(x.roads[k], i));
            }
        }
        assert forall|l: LaneID| #[trigger] m2.has_lane(l) implies m2.lane_wf(l) by {
            assert(self.has_lane(l));
            assert(self.lane_wf(l));
        }
        assert forall|n: NavNodeID| #[trigger] m2.has_node(n) implies m2.node_wf(n) by {
            assert(self.has_node(n));
            assert(self.node_wf(n));
        }
    }

    /// Installing a policy keeps the rules.
    pub proof fn lemma_with_policy_wf(self, at: IntersectionID, policy: TrafficModel)
        requires
            self.wf(),
            self.has_intersection(at),
        ensures
            self.with_policy(at, policy).wf(),
    {
        let m2 = self.with_policy(at, policy);
        assert(self.intersection_wf(at));
        assert forall|r: RoadID| #[trigger] m2.has_road(r) implies m2.road_wf(r) by {
            assert(self.has_road(r));
            assert(self.road_wf(r));
        }
        assert forall|i: IntersectionID| #[trigger]
            m2.has_intersection(i) implies m2.intersection_wf(i) by {
            assert(self.has_intersection(i));
            assert(self.intersection_wf(i));
            let x = self.intersection(i);
            assert forall|k: int| 0 <= k < x.roads.len() implies m2.road_at(
                #[trigger] x.roads[k],
                i,
            ) by {
                assert(self.road_at(x.roads[k], i));
            }
        }
        assert forall|l: LaneID| #[trigger] m2.has_lane(l) implies m2.lane_wf(l) by {
            assert(self.has_lane(l));
            assert(self.lane_wf(l));
        }
        assert forall|n: NavNodeID| #[trigger] m2.has_node(n) implies m2.node_wf(n) by {
            assert(self.has_node(n));
            assert(self.node_wf(n));
        }
    }

    /// Removing an intersection at which no road ends keeps the rules.
    pub proof fn lemma_remove_intersection_wf(self, at: IntersectionID)
        requires
            self.wf(),
            self.has_intersection(at),
            self.intersection(at).roads.len() == 0,
        ensures
            self.remove_intersection(at).wf(),
    {
        let m2 = self.remove_intersection(at);
        assert forall|r: RoadID| #[trigger] m2.has_road(r) implies m2.road_wf(r) by {
            assert(self.has_road(r));
            assert(self.road_wf(r));
        }
        assert forall|i: IntersectionID| #[trigger]
            m2.has_intersection(i) implies m2.intersection_wf(i) by {
            assert(self.has_intersection(i));
            assert(self.intersection_wf(i));
            let x = self.intersection(i);
            assert forall|k: int| 0 <= k < x.roads.len() implies m2.road_at(
                #[trigger] x.roads[k],
                i,
            ) by {
                assert(self.road_at(x.roads[k], i));
            }
        }
        assert forall|l: LaneID| #[trigger] m2.has_lane(l) implies m2.lane_wf(l) by {
            assert(self.has_lane(l));
            assert(self.lane_wf(l));
        }
        assert forall|n: NavNodeID| #[trigger] m2.has_node(n) implies m2.node_wf(n) by {
            assert(self.has_node(n));
            assert(self.node_wf(n));
        }
    }
}

} // verus!
