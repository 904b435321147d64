//! Checking a map against the rules of [`MapModel::wf`].

use vstd::prelude::*;
use crate::error::LoadError;
use crate::ids::{IntersectionID, LaneID, NavNodeID, RoadID};
use crate::lane::LaneDirection;
use crate::map::{first_unbound, RoadMap};
use crate::model::{lists_slots, unbound_at, MapModel};
use crate::turn::{is_turn_list, lemma_turn_list_unique, turns_at, Turn};

verus! {

impl MapModel {
    /// `e` names the first entity of the map that breaks the rules: every
    /// kind that is looked at before its kind keeps them, and so does every
    /// entity of its kind with a lower identifier.
    pub open spec fn fault(self, e: LoadError) -> bool {
        match e {
            LoadError::BadRoad(r) => {
                &&& self.has_road(r)
                &&& !self.road_wf(r)
                &&& forall|q: RoadID| #[trigger] self.has_road(q) && q.0 < r.0 ==> self.road_wf(q)
            },
            LoadError::BadIntersection(i) => {
                &&& self.roads_wf()
                &&& self.has_intersection(i)
                &&& !self.intersection_wf(i)
                &&& forall|q: IntersectionID| #[trigger]
                    self.has_intersection(q) && q.0 < i.0 ==> self.intersection_wf(q)
            },
            LoadError::BadLane(l) => {
                &&& self.roads_wf()
                &&& self.intersections_wf()
                &&& self.has_lane(l)
                &&& !self.lane_wf(l)
                &&& forall|q: LaneID| #[trigger] self.has_lane(q) && q.0 < l.0 ==> self.lane_wf(q)
            },
            LoadError::BadNode(n) => {
                &&& self.roads_wf()
                &&& self.intersections_wf()
                &&& self.lanes_wf()
                &&& self.has_node(n)
                &&& !self.node_wf(n)
                &&& forall|q: NavNodeID| #[trigger]
                    self.has_node(q) && q.0 < n.0 ==> self.node_wf(q)
            },
        }
    }

    /// A map has a fault exactly when it breaks the rules, so a map that
    /// keeps them is never refused.
    pub proof fn lemma_fault_breaks_rules(self, e: LoadError)
        requires
            self.fault(e),
        ensures
            !self.wf(),
    {
    }
}

/// Whether the list holds the road.
fn holds_road(list: &Vec<RoadID>, r: RoadID) -> (b: bool)
    ensures
        b == list@.contains(r),
{
    let mut k: usize = 0;
    while k < list.len()
        invariant
            k <= list.len(),
            forall|j: int| 0 <= j < k ==> list@[j] != r,
        decreases list.len() - k,
    {
        if list[k] == r {
            return true;
        }
        k += 1;
    }
    false
}

/// Whether the list holds the lane.
fn holds_lane(list: &Vec<LaneID>, l: LaneID) -> (b: bool)
    ensures
        b == list@.contains(l),
{
    let mut k: usize = 0;
    while k < list.len()
        invariant
            k <= list.len(),
            forall|j: int| 0 <= j < k ==> list@[j] != l,
        decreases list.len() - k,
    {
        if list[k] == l {
            return true;
        }
        k += 1;
    }
    false
}

/// Whether no road occurs twice in the list.
fn distinct_roads(list: &Vec<RoadID>) -> (b: bool)
    ensures
        b == list@.no_duplicates(),
{
    let mut i: usize = 0;
    while i < list.len()
        invariant
            i <= list.len(),
            forall|a: int, b: int| 0 <= a < i && a < b < list.len() ==> list@[a] != list@[b],
        decreases list.len() - i,
    {
        let mut j: usize = i + 1;
        while j < list.len()
            invariant
                i < j <= list.len(),
                forall|b: int| i < b < j ==> list@[i as int] != list@[b],
            decreases list.len() - j,
        {
            if list[i] == list[j] {
                return false;
            }
            j += 1;
        }
        i += 1;
    }
    proof {
        assert forall|a: int, b: int|
            0 <= a < list@.len() && 0 <= b < list@.len() && a != b implies list@[a]
            != list@[b] by {
            if a < b {
                assert(list@[a] != list@[b]);
            } else {
                assert(list@[b] != list@[a]);
            }
        }
    }
    true
}

/// Whether no lane occurs twice in the list.
fn distinct_lanes(list: &Vec<LaneID>) -> (b: bool)
    ensures
        b == list@.no_duplicates(),
{
    let mut i: usize = 0;
    while i < list.len()
        invariant
            i <= list.len(),
            forall|a: int, b: int| 0 <= a < i && a < b < list.len() ==> list@[a] != list@[b],
        decreases list.len() - i,
    {
        let mut j: usize = i + 1;
        while j < list.len()
            invariant
                i < j <= list.len(),
                forall|b: int| i < b < j ==> list@[i as int] != list@[b],
            decreases list.len() - j,
        {
            if list[i] == list[j] {
                return false;
            }
            j += 1;
        }
        i += 1;
    }
    proof {
        assert forall|a: int, b: int|
            0 <= a < list@.len() && 0 <= b < list@.len() && a != b implies list@[a]
            != list@[b] by {
            if a < b {
                assert(list@[a] != list@[b]);
            } else {
                assert(list@[b] != list@[a]);
            }
        }
    }
    true
}

/// Whether the two lists hold the same turns in the same order.
fn same_turns(a: &Vec<Turn>, b: &Vec<Turn>) -> (same: bool)
    ensures
        same == (a@ == b@),
{
    if a.len() != b.len() {
        return false;
    }
    let mut k: usize = 0;
    while k < a.len()
        invariant
            k <= a.len(),
            a.len() == b.len(),
            forall|j: int| 0 <= j < k ==> a@[j] == b@[j],
        decreases a.len() - k,
    {
        if a[k] != b[k] {
            return false;
        }
        k += 1;
    }
    assert(a@ =~= b@);
    true
}

impl RoadMap {
    /// Whether every lane of the list is a lane of the road `r` with the
    /// direction `d`.
    fn lanes_belong(&self, list: &Vec<LaneID>, r: RoadID, d: LaneDirection) -> (b: bool)
        ensures
            b == (forall|k: int|
                0 <= k < list@.len() ==> self@.lane_of(#[trigger] list@[k], r, d)),
    {
        let mut k: usize = 0;
        while k < list.len()
            invariant
                k <= list.len(),
                forall|j: int| 0 <= j < k ==> self@.lane_of(#[trigger] list@[j], r, d),
            decreases list.len() - k,
        {
            match self.lane(list[k]) {
                Some(lane) => {
                    if lane.parent != r || lane.direction != d {
                        assert(!self@.lane_of(list@[k as int], r, d));
                        return false;
                    }
                },
                None => {
                    assert(!self@.lane_of(list@[k as int], r, d));
                    return false;
                },
            }
            k += 1;
        }
        true
    }

    /// Whether the map holds the road and the road keeps the rules of a
    /// road.
    pub fn check_road(&self, r: RoadID) -> (b: bool)
        ensures
            b == (self@.has_road(r) && self@.road_wf(r)),
    {
        let road = match self.road(r) {
            Some(road) => road,
            None => {
                return false;
            },
        };
        if road.id != r || road.src == road.dst {
            return false;
        }
        let xs = match self.intersection(road.src) {
            Some(x) => x,
            None => {
                return false;
            },
        };
        let xd = match self.intersection(road.dst) {
            Some(x) => x,
            None => {
                return false;
            },
        };
        if !holds_road(&xs.roads, r) || !holds_road(&xd.roads, r) {
            return false;
        }
        if !distinct_lanes(&road.lanes_forward) || !distinct_lanes(&road.lanes_backward) {
            return false;
        }
        self.lanes_belong(&road.lanes_forward, r, LaneDirection::Forward) && self.lanes_belong(
            &road.lanes_backward,
            r,
            LaneDirection::Backward,
        )
    }

    /// Whether the map holds the intersection and the intersection keeps the
    /// rules of an intersection.
    pub fn check_intersection(&self, i: IntersectionID) -> (b: bool)
        ensures
            b == (self@.has_intersection(i) && self@.intersection_wf(i)),
    {
        let x = match self.intersection(i) {
            Some(x) => x,
            None => {
                return false;
            },
        };
        if x.id != i || !distinct_roads(&x.roads) {
            return false;
        }
        let mut k: usize = 0;
        while k < x.roads.len()
            invariant
                k <= x.roads.len(),
                x@ == self@.intersection(i),
                forall|j: int| 0 <= j < k ==> self@.road_at(#[trigger] x.roads@[j], i),
            decreases x.roads.len() - k,
        {
            match self.road(x.roads[k]) {
                Some(road) => {
                    if road.src != i && road.dst != i {
                        assert(!self@.road_at(x.roads@[k as int], i));
                        return false;
                    }
                },
                None => {
                    assert(!self@.road_at(x.roads@[k as int], i));
                    return false;
                },
            }
            k += 1;
        }
        if x.turns.len() > 0 {
            match first_unbound(self.lane_store(), i) {
                Some(l) => {
                    assert(unbound_at(self@.lanes, i, l.0));
                    return false;
                },
                None => {},
            }
            let turns = turns_at(self.lane_store(), &x.policy, i);
            let same = same_turns(&x.turns, &turns);
            proof {
                if is_turn_list(self@.lanes, x.policy@, i, x.turns@) {
                    lemma_turn_list_unique(self@.lanes, x.policy@, i, x.turns@, turns@);
                }
            }
            return same;
        }
        true
    }

    /// Whether a node bound at the end `at` of the lane `l` is a node of the
    /// mesh that is recorded as that end.
    fn end_ok(&self, l: LaneID, at: IntersectionID, bound: Option<NavNodeID>) -> (b: bool)
        ensures
            b == self@.end_wf(l, at, bound),
    {
        match bound {
            None => true,
            Some(n) => match self.node(n) {
                Some(node) => node.lane == l && node.at == at,
                None => false,
            },
        }
    }

    /// Whether the map holds the lane and the lane keeps the rules of a
    /// lane.
    pub fn check_lane(&self, l: LaneID) -> (b: bool)
        ensures
            b == (self@.has_lane(l) && self@.lane_wf(l)),
    {
        let lane = match self.lane(l) {
            Some(lane) => lane,
            None => {
                return false;
            },
        };
        if lane.id != l {
            return false;
        }
        let road = match self.road(lane.parent) {
            Some(road) => road,
            None => {
                return false;
            },
        };
        if lane.src_i != road.src || lane.dst_i != road.dst {
            return false;
        }
        let listed = match lane.direction {
            LaneDirection::Forward => holds_lane(&road.lanes_forward, l),
            LaneDirection::Backward => holds_lane(&road.lanes_backward, l),
        };
        listed && self.end_ok(l, lane.src_i, lane.src_node) && self.end_ok(
            l,
            lane.dst_i,
            lane.dst_node,
        )
    }

    /// Whether the map holds the node and the node keeps the rules of a
    /// node.
    pub fn check_node(&self, n: NavNodeID) -> (b: bool)
        ensures
            b == (self@.has_node(n) && self@.node_wf(n)),
    {
        let node = match self.node(n) {
            Some(node) => node,
            None => {
                return false;
            },
        };
        if node.id != n {
            return false;
        }
        match self.lane(node.lane) {
            Some(lane) => match lane.try_get_inter_node(node.at) {
                Ok(found) => found == n,
                Err(_) => false,
            },
            None => false,
        }
    }

    /// Checks the map against the rules of a map, and names the first
    /// entity that breaks them.
    pub fn validate(&self) -> (res: Result<(), LoadError>)
        ensures
            match res {
                Ok(_) => self.wf(),
                Err(e) => self@.fault(e),
            },
    {
        let roads = self.road_ids();
        let mut p: usize = 0;
        while p < roads.len()
            invariant
                p <= roads.len(),
                lists_slots(roads@.map_values(|id: RoadID| id.0), self@.roads.dom()),
                forall|j: int| 0 <= j < p ==> self@.road_wf(#[trigger] roads@[j]),
            decreases roads.len() - p,
        {
            let ghost keys = roads@.map_values(|id: RoadID| id.0);
            let r = roads[p];
            assert(keys[p as int] == r.0);
            assert(keys.contains(r.0));
            if !self.check_road(r) {
                proof {
                    assert forall|q: RoadID| #[trigger]
                        self@.has_road(q) && q.0 < r.0 implies self@.road_wf(q) by {
                        assert(keys.contains(q.0));
                        let c = choose|c: int| 0 <= c < keys.len() && keys[c] == q.0;
                        if c > p {
                            assert(keys[p as int] < keys[c]);
                        }
                        assert(roads@[c] == q);
                    }
                }
                return Err(LoadError::BadRoad(r));
            }
            p += 1;
        }
        proof {
            let keys = roads@.map_values(|id: RoadID| id.0);
            assert forall|q: RoadID| #[trigger] self@.has_road(q) implies self@.road_wf(q) by {
                assert(keys.contains(q.0));
                let c = choose|c: int| 0 <= c < keys.len() && keys[c] == q.0;
                assert(roads@[c] == q);
            }
        }
        let inters = self.intersection_ids();
        let mut p: usize = 0;
        while p < inters.len()
            invariant
                p <= inters.len(),
                self@.roads_wf(),
                lists_slots(
                    inters@.map_values(|id: IntersectionID| id.0),
                    self@.intersections.dom(),
                ),
                forall|j: int| 0 <= j < p ==> self@.intersection_wf(#[trigger] inters@[j]),
            decreases inters.len() - p,
        {
            let ghost keys = inters@.map_values(|id: IntersectionID| id.0);
            let i = inters[p];
            assert(keys[p as int] == i.0);
            assert(keys.contains(i.0));
            if !self.check_intersection(i) {
                proof {
                    assert forall|q: IntersectionID| #[trigger]
                        self@.has_intersection(q) && q.0 < i.0 implies self@.intersection_wf(
                        q,
                    ) by {
                        assert(keys.contains(q.0));
                        let c = choose|c: int| 0 <= c < keys.len() && keys[c] == q.0;
                        if c > p {
                            assert(keys[p as int] < keys[c]);
                        }
                        assert(inters@[c] == q);
                    }
                }
                return Err(LoadError::BadIntersection(i));
            }
            p += 1;
        }
        proof {
            let keys = inters@.map_values(|id: IntersectionID| id.0);
            assert forall|q: IntersectionID| #[trigger]
                self@.has_intersection(q) implies self@.intersection_wf(q) by {
                assert(keys.contains(q.0));
                let c = choose|c: int| 0 <= c < keys.len() && keys[c] == q.0;
                assert(inters@[c] == q);
            }
        }
        let lanes = self.lane_ids();
        let mut p: usize = 0;
        while p < lanes.len()
            invariant
                p <= lanes.len(),
                self@.roads_wf(),
                self@.intersections_wf(),
                lists_slots(lanes@.map_values(|id: LaneID| id.0), self@.lanes.dom()),
                forall|j: int| 0 <= j < p ==> self@.lane_wf(#[trigger] lanes@[j]),
            decreases lanes.len() - p,
        {
            let ghost keys = lanes@.map_values(|id: LaneID| id.0);
            let l = lanes[p];
            assert(keys[p as int] == l.0);
            assert(keys.contains(l.0));
            if !self.check_lane(l) {
                proof {
                    assert forall|q: LaneID| #[trigger]
                        self@.has_lane(q) && q.0 < l.0 implies self@.lane_wf(q) by {
                        assert(keys.contains(q.0));
                        let c = choose|c: int| 0 <= c < keys.len() && keys[c] == q.0;
                        if c > p {
                            assert(keys[p as int] < keys[c]);
                        }
                        assert(lanes@[c] == q);
                    }
                }
                return Err(LoadError::BadLane(l));
            }
            p += 1;
        }
        proof {
            let keys = lanes@.map_values(|id: LaneID| id.0);
            assert forall|q: LaneID| #[trigger] self@.has_lane(q) implies self@.lane_wf(q) by {
                assert(keys.contains(q.0));
                let c = choose|c: int| 0 <= c < keys.len() && keys[c] == q.0;
                assert(lanes@[c] == q);
            }
        }
        let nodes = self.node_ids();
        let mut p: usize = 0;
        while p < nodes.len()
            invariant
                p <= nodes.len(),
                self@.roads_wf(),
                self@.intersections_wf(),
                self@.lanes_wf(),
                lists_slots(nodes@.map_values(|id: NavNodeID| id.0), self@.nodes.dom()),
                forall|j: int| 0 <= j < p ==> self@.node_wf(#[trigger] nodes@[j]),
            decreases nodes.len() - p,
        {
            let ghost keys = nodes@.map_values(|id: NavNodeID| id.0);
            let n = nodes[p];
            assert(keys[p as int] == n.0);
            assert(keys.contains(n.0));
            if !self.check_node(n) {
                proof {
                    assert forall|q: NavNodeID| #[trigger]
                        self@.has_node(q) && q.0 < n.0 implies self@.node_wf(q) by {
                        assert(keys.contains(q.0));
                        let c = choose|c: int| 0 <= c < keys.len() && keys[c] == q.0;
                        if c > p {
                            assert(keys[p as int] < keys[c]);
                        }
                        assert(nodes@[c] == q);
                    }
                }
                return Err(LoadError::BadNode(n));
            }
            p += 1;
        }
        proof {
            let keys = nodes@.map_values(|id: NavNodeID| id.0);
            assert forall|q: NavNodeID| #[trigger] self@.has_node(q) implies self@.node_wf(q) by {
                assert(keys.contains(q.0));
                let c = choose|c: int| 0 <= c < keys.len() && keys[c] == q.0;
                assert(nodes@[c] == q);
            }
        }
        Ok(())
    }
}

} // verus!
