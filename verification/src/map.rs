//! The map: intersections, roads, lanes and navigation nodes in their
//! arenas, kept to the rules of [`MapModel::wf`].

use vstd::prelude::*;
use slab::Slab;
use crate::arena::{
    intersection_arena, intersection_arena_from, intersection_get, intersection_get_mut,
    intersection_insert, intersection_keys, intersection_remove, intersection_slots,
    intersection_vacant, intersection_vacant_key, lane_arena, lane_arena_from, lane_get,
    lane_get_mut, lane_keys, lane_remove, lane_slots, lane_vacant, road_arena, road_arena_from,
    road_get, road_get_mut, road_insert, road_keys, road_remove, road_slots, road_vacant,
    road_vacant_key,
};
use crate::error::MapError;
use crate::ids::{IntersectionID, LaneID, NavNodeID, RoadID};
use crate::intersection::{Intersection, Position};
use crate::lane::{Lane, LaneDirection, LaneType};
use crate::model::{
    all_bound_at, bound_prefix, is_first_unbound, lane_has_node, lane_rebound, lists_slots,
    nodes_of, road_bound, slots_of, unbound_at, MapModel,
};
use crate::navmesh::{NavMesh, NavNode};
use crate::road::Road;
use crate::snapshot::{held, intersection_records, lemma_arena_of_pairs, occupied, road_records};
use crate::traffic_control::TrafficControl;
use crate::turn::{is_turn_list, turns_at};

verus! {

/// A road network.
///
/// Its contents are reached through its methods only, and every method
/// leaves it within the rules of [`MapModel::wf`].
pub struct RoadMap {
    intersections: Slab<Intersection>,
    roads: Slab<Road>,
    lanes: Slab<Lane>,
    navmesh: NavMesh,
}

impl View for RoadMap {
    type V = MapModel;

    closed spec fn view(&self) -> MapModel {
        MapModel {
            intersections: intersection_slots(self.intersections).map_values(
                |x: Intersection| x@,
            ),
            roads: road_slots(self.roads).map_values(|r: Road| r@),
            lanes: lane_slots(self.lanes),
            nodes: self.navmesh@,
        }
    }
}

impl MapModel {
    /// Why a road from `src` to `dst` cannot be added, if it cannot.
    pub open spec fn road_refusal(self, src: IntersectionID, dst: IntersectionID) -> Option<
        MapError,
    > {
        if !self.has_intersection(src) {
            Some(MapError::UnknownIntersection(src))
        } else if !self.has_intersection(dst) {
            Some(MapError::UnknownIntersection(dst))
        } else if src == dst {
            Some(MapError::LoopRoad(src))
        } else {
            None
        }
    }
}

impl RoadMap {
    /// The map obeys the rules of a map.
    pub open spec fn wf(&self) -> bool {
        self@.wf()
    }

    /// The identifier that the next intersection added to the map will get:
    /// the vacant slot of its arena.
    pub closed spec fn vacant_intersection(&self) -> IntersectionID {
        IntersectionID(intersection_vacant(self.intersections))
    }

    /// The identifier that the next road added to the map will get.
    pub closed spec fn vacant_road(&self) -> RoadID {
        RoadID(road_vacant(self.roads))
    }

    /// The identifier that the next lane added to the map will get.
    pub closed spec fn vacant_lane(&self) -> LaneID {
        LaneID(lane_vacant(self.lanes))
    }

    /// A map that holds nothing.
    pub fn new() -> (map: RoadMap)
        ensures
            map.wf(),
            map@ == MapModel::empty(),
    {
        let map = RoadMap {
            intersections: intersection_arena(),
            roads: road_arena(),
            lanes: lane_arena(),
            navmesh: NavMesh::new(),
        };
        proof {
            assert(map@.intersections =~= Map::empty());
            assert(map@.roads =~= Map::empty());
            assert(map@.lanes =~= Map::empty());
            MapModel::lemma_empty_wf();
        }
        map
    }

    /// Adds an intersection at `pos`. No road arrives there yet, and it is
    /// uncontrolled.
    pub fn add_intersection(&mut self, pos: Position) -> (id: IntersectionID)
        requires
            old(self).wf(),
        ensures
            final(self).wf(),
            id == old(self).vacant_intersection(),
            !old(self)@.has_intersection(id),
            final(self)@ == old(self)@.add_intersection(id, pos),
    {
        let id = IntersectionID(intersection_vacant_key(&self.intersections));
        let _ = intersection_insert(&mut self.intersections, Intersection::new(id, pos));
        proof {
            assert(self@.intersections =~= old(self)@.add_intersection(id, pos).intersections);
            old(self)@.lemma_add_intersection_wf(id, pos);
        }
        id
    }

    /// Adds a road from `src` to `dst`, without lanes.
    ///
    /// Both must be intersections of the map, and they must differ.
    pub fn add_road(&mut self, src: IntersectionID, dst: IntersectionID) -> (res: Result<
        RoadID,
        MapError,
    >)
        requires
            old(self).wf(),
        ensures
            final(self).wf(),
            match old(self)@.road_refusal(src, dst) {
                Some(e) => res == Err::<RoadID, MapError>(e) && final(self)@ == old(self)@,
                None => {
                    &&& res matches Ok(id)
                    &&& id == old(self).vacant_road()
                    &&& !old(self)@.has_road(id)
                    &&& final(self)@ == old(self)@.add_road(id, src, dst)
                },
            },
    {
        if intersection_get(&self.intersections, src.0).is_none() {
            return Err(MapError::UnknownIntersection(src));
        }
        if intersection_get(&self.intersections, dst.0).is_none() {
            return Err(MapError::UnknownIntersection(dst));
        }
        if src == dst {
            return Err(MapError::LoopRoad(src));
        }
        let id = RoadID(road_vacant_key(&self.roads));
        let _ = road_insert(&mut self.roads, Road::new(id, src, dst));
        let x = intersection_get_mut(&mut self.intersections, src.0);
        x.roads.push(id);
        let y = intersection_get_mut(&mut self.intersections, dst.0);
        y.roads.push(id);
        proof {
            let m2 = old(self)@.add_road(id, src, dst);
            assert(self@.roads =~= m2.roads);
            assert(self@.intersections =~= m2.intersections);
            old(self)@.lemma_add_road_wf(id, src, dst);
        }
        Ok(id)
    }

    /// Adds a lane of the given kind and direction to a road.
    ///
    /// The lane has no node bound yet. The turns of the two intersections at
    /// the road's ends are dropped.
    pub fn add_lane(&mut self, road: RoadID, lane_type: LaneType, direction: LaneDirection) -> (res:
        Result<LaneID, MapError>)
        requires
            old(self).wf(),
        ensures
            final(self).wf(),
            match res {
                Ok(id) => old(self)@.has_road(road) && id == old(self).vacant_lane() && !old(
                    self,
                )@.has_lane(id) && final(self)@ == old(self)@.add_lane(
                    id,
                    road,
                    lane_type,
                    direction,
                ),
                Err(e) => !old(self)@.has_road(road) && e == MapError::UnknownRoad(road)
                    && final(self)@ == old(self)@,
            },
    {
        if road_get(&self.roads, road.0).is_none() {
            return Err(MapError::UnknownRoad(road));
        }
        proof {
            assert(old(self)@.has_road(road));
            assert(old(self)@.road_wf(road));
        }
        let owner = road_get_mut(&mut self.roads, road.0);
        let src = owner.src;
        let dst = owner.dst;
        let id = match direction {
            LaneDirection::Forward => Lane::make_forward(&mut self.lanes, owner, lane_type),
            LaneDirection::Backward => Lane::make_backward(&mut self.lanes, owner, lane_type),
        };
        let x = intersection_get_mut(&mut self.intersections, src.0);
        x.turns.clear();
        let y = intersection_get_mut(&mut self.intersections, dst.0);
        y.turns.clear();
        proof {
            let m2 = old(self)@.add_lane(id, road, lane_type, direction);
            assert(self@.roads =~= m2.roads);
            assert(self@.intersections =~= m2.intersections);
            assert(self@.lanes =~= m2.lanes);
            old(self)@.lemma_add_lane_wf(id, road, lane_type, direction);
        }
        Ok(id)
    }

    /// Gives each lane of the list, which is the list of a road that ends at
    /// `at`, its node at that end. `start` is the map as it was when the
    /// building began.
    fn bind_lanes(&mut self, list: &Vec<LaneID>, at: IntersectionID, Ghost(start): Ghost<MapModel>)
        requires
            old(self).wf(),
            start.nav_progress(old(self)@, at),
            forall|j: int|
                0 <= j < list@.len() ==> old(self)@.has_lane(#[trigger] list@[j]) && old(
                    self,
                )@.lane(list@[j]).touches(at),
        ensures
            final(self).wf(),
            start.nav_progress(final(self)@, at),
            old(self)@.nav_progress(final(self)@, at),
            bound_prefix(final(self)@.lanes, list@, list@.len() as int, at),
    {
        let mut k: usize = 0;
        proof {
            old(self)@.lemma_nav_progress_refl(at);
        }
        while k < list.len()
            invariant
                k <= list.len(),
                self.wf(),
                start.nav_progress(self@, at),
                old(self)@.nav_progress(self@, at),
                forall|j: int|
                    0 <= j < list@.len() ==> old(self)@.has_lane(#[trigger] list@[j]) && old(
                        self,
                    )@.lane(list@[j]).touches(at),
                bound_prefix(self@.lanes, list@, k as int, at),
            decreases list.len() - k,
        {
            let l = list[k];
            let ghost cur = self@;
            let ghost vacant = self.navmesh.vacant();
            proof {
                assert(old(self)@.has_lane(list@[k as int]));
                assert(lane_rebound(old(self)@.lane(l), cur.lane(l), at, old(self)@.nodes));
                assert(cur.has_lane(l));
                assert(cur.lane(l).touches(at));
            }
            bind_end(&mut self.lanes, &mut self.navmesh, l, at);
            proof {
                if cur.lane(l).node_at(at).is_some() {
                    assert(self@ == cur);
                } else {
                    let n = NavNodeID(vacant);
                    assert(self@ == cur.bind(l, at, n));
                    cur.lemma_bind_wf(l, at, n);
                    start.lemma_nav_progress_step(cur, l, at, n);
                    old(self)@.lemma_nav_progress_step(cur, l, at, n);
                }
                let after = self@.lanes;
                assert forall|j: int| 0 <= j < k + 1 implies after[(#[trigger] list@[j]).0].node_at(
                    at,
                ).is_some() by {
                    if j < k {
                        assert(cur.lanes[list@[j].0].node_at(at).is_some());
                    }
                }
            }
            k += 1;
        }
    }

    /// Builds the navigation nodes at an intersection: every lane that ends
    /// there and has no node at that end gets a new node, bound at that end.
    ///
    /// Lanes that have their node keep it, so building twice is the same as
    /// building once.
    pub fn build_nav_nodes(&mut self, at: IntersectionID) -> (res: Result<(), MapError>)
        requires
            old(self).wf(),
        ensures
            final(self).wf(),
            match res {
                Ok(_) => old(self)@.has_intersection(at) && old(self)@.nav_built(
                    final(self)@,
                    at,
                ),
                Err(e) => !old(self)@.has_intersection(at) && e == MapError::UnknownIntersection(
                    at,
                ) && final(self)@ == old(self)@,
            },
    {
        let n_roads = match intersection_get(&self.intersections, at.0) {
            Some(x) => x.roads.len(),
            None => {
                return Err(MapError::UnknownIntersection(at));
            },
        };
        let ghost start = self@;
        let ghost roads = start.intersection(at).roads;
        proof {
            start.lemma_nav_progress_refl(at);
            assert(start.has_intersection(at));
        }
        let mut ri: usize = 0;
        while ri < n_roads
            invariant
                ri <= n_roads,
                n_roads == roads.len(),
                self.wf(),
                start.wf(),
                start.has_intersection(at),
                roads == start.intersection(at).roads,
                start.nav_progress(self@, at),
                forall|j: int|
                    0 <= j < ri ==> road_bound(self@.lanes, self@.road(#[trigger] roads[j]), at),
            decreases n_roads - ri,
        {
            let ghost cur = self@;
            proof {
                assert(cur.has_intersection(at));
                assert(cur.intersection_wf(at));
                assert(cur.road_at(roads[ri as int], at));
                assert(cur.road_wf(roads[ri as int]));
            }
            let rid = intersection_get(&self.intersections, at.0).unwrap().roads[ri];
            let road = road_get(&self.roads, rid.0).unwrap();
            let forward = road.lanes_forward.clone();
            let backward = road.lanes_backward.clone();
            proof {
                assert(forward@ == cur.road(rid).lanes_forward);
                assert(backward@ == cur.road(rid).lanes_backward);
                assert forall|j: int| 0 <= j < forward@.len() implies cur.has_lane(
                    #[trigger] forward@[j],
                ) && cur.lane(forward@[j]).touches(at) by {
                    assert(cur.lane_of(forward@[j], rid, LaneDirection::Forward));
                    assert(cur.lane_wf(forward@[j]));
                }
                assert forall|j: int| 0 <= j < backward@.len() implies cur.has_lane(
                    #[trigger] backward@[j],
                ) && cur.lane(backward@[j]).touches(at) by {
                    assert(cur.lane_of(backward@[j], rid, LaneDirection::Backward));
                    assert(cur.lane_wf(backward@[j]));
                }
            }
            self.bind_lanes(&forward, at, Ghost(start));
            let ghost mid = self@;
            proof {
                assert forall|j: int| 0 <= j < backward@.len() implies mid.has_lane(
                    #[trigger] backward@[j],
                ) && mid.lane(backward@[j]).touches(at) by {
                    assert(cur.has_lane(backward@[j]));
                    assert(lane_rebound(
                        cur.lane(backward@[j]),
                        mid.lane(backward@[j]),
                        at,
                        cur.nodes,
                    ));
                }
            }
            self.bind_lanes(&backward, at, Ghost(start));
            proof {
                let fin = self@;
                lemma_bound_kept(mid, fin, forward@, at);
                assert forall|j: int| 0 <= j < ri + 1 implies road_bound(
                    fin.lanes,
                    fin.road(#[trigger] roads[j]),
                    at,
                ) by {
                    if j < ri {
                        assert(road_bound(cur.lanes, cur.road(roads[j]), at));
                        assert(cur.road_at(roads[j], at));
                        assert(cur.road_wf(roads[j]));
                        let r = cur.road(roads[j]);
                        lemma_prefix_kept(
                            cur,
                            mid,
                            r.lanes_forward,
                            at,
                            roads[j],
                            LaneDirection::Forward,
                        );
                        lemma_prefix_kept(
                            cur,
                            mid,
                            r.lanes_backward,
                            at,
                            roads[j],
                            LaneDirection::Backward,
                        );
                        lemma_bound_kept(mid, fin, r.lanes_forward, at);
                        lemma_bound_kept(mid, fin, r.lanes_backward, at);
                    }
                }
            }
            ri += 1;
        }
        proof {
            self@.lemma_all_bound(at);
        }
        Ok(())
    }

    /// Generates the turns at an intersection and records them there, in
    /// place of those recorded before.
    ///
    /// Every lane that ends at the intersection must have its node there:
    /// where one has none, the lowest such lane is reported and nothing
    /// changes. [`RoadMap::rebuild`] builds the nodes first.
    pub fn generate_turns(&mut self, at: IntersectionID) -> (res: Result<(), MapError>)
        requires
            old(self).wf(),
        ensures
            final(self).wf(),
            match res {
                Ok(_) => {
                    &&& old(self)@.has_intersection(at)
                    &&& all_bound_at(old(self)@.lanes, at)
                    &&& final(self)@ == old(self)@.with_turns(
                        at,
                        final(self)@.intersection(at).turns,
                    )
                    &&& is_turn_list(
                        old(self)@.lanes,
                        old(self)@.intersection(at).policy,
                        at,
                        final(self)@.intersection(at).turns,
                    )
                },
                Err(MapError::UnknownIntersection(i)) => i == at && !old(self)@.has_intersection(
                    at,
                ) && final(self)@ == old(self)@,
                Err(MapError::LaneUnbound(l)) => old(self)@.has_intersection(at)
                    && is_first_unbound(old(self)@.lanes, at, l.0) && final(self)@ == old(self)@,
                Err(_) => false,
            },
    {
        let x = match intersection_get(&self.intersections, at.0) {
            Some(x) => x,
            None => {
                return Err(MapError::UnknownIntersection(at));
            },
        };
        match first_unbound(&self.lanes, at) {
            Some(l) => {
                return Err(MapError::LaneUnbound(l));
            },
            None => {},
        }
        let turns = turns_at(&self.lanes, &x.policy, at);
        let ghost list = turns@;
        let y = intersection_get_mut(&mut self.intersections, at.0);
        y.turns = turns;
        proof {
            let m2 = old(self)@.with_turns(at, list);
            assert(self@.intersections =~= m2.intersections);
            assert(self@ == m2);
            old(self)@.lemma_with_turns_wf(at, list);
        }
        Ok(())
    }

    /// Brings an intersection up to date: builds the navigation nodes that
    /// are missing there, then generates its turns.
    pub fn rebuild(&mut self, at: IntersectionID) -> (res: Result<(), MapError>)
        requires
            old(self).wf(),
        ensures
            final(self).wf(),
            match res {
                Ok(_) => {
                    &&& old(self)@.has_intersection(at)
                    &&& old(self)@.nav_built(
                        final(self)@.with_turns(at, old(self)@.intersection(at).turns),
                        at,
                    )
                    &&& final(self)@.has_intersection(at)
                    &&& final(self)@.up_to_date(at)
                },
                Err(e) => !old(self)@.has_intersection(at) && e == MapError::UnknownIntersection(
                    at,
                ) && final(self)@ == old(self)@,
            },
    {
        match self.build_nav_nodes(at) {
            Ok(_) => {},
            Err(e) => {
                return Err(e);
            },
        }
        let ghost mid = self@;
        let res = self.generate_turns(at);
        proof {
            assert(mid.has_intersection(at));
            assert(all_bound_at(mid.lanes, at));
            match res {
                Ok(_) => {
                    let back = self@.with_turns(at, old(self)@.intersection(at).turns);
                    assert(back.intersections =~= mid.intersections);
                    assert(back == mid);
                },
                Err(MapError::LaneUnbound(l)) => {
                    assert(unbound_at(mid.lanes, at, l.0));
                    assert(false);
                },
                Err(_) => {
                    assert(false);
                },
            }
        }
        Ok(())
    }

    /// Brings every intersection up to date, in the order of their
    /// identifiers.
    pub fn rebuild_all(&mut self)
        requires
            old(self).wf(),
        ensures
            final(self).wf(),
            old(self)@.extends(final(self)@),
            forall|i: IntersectionID| #[trigger]
                final(self)@.has_intersection(i) ==> final(self)@.up_to_date(i),
    {
        let ids = self.intersection_ids();
        let ghost keys = ids@.map_values(|id: IntersectionID| id.0);
        let mut p: usize = 0;
        while p < ids.len()
            invariant
                p <= ids.len(),
                self.wf(),
                old(self)@.extends(self@),
                keys == ids@.map_values(|id: IntersectionID| id.0),
                lists_slots(keys, self@.intersections.dom()),
                forall|q: int| 0 <= q < p ==> self@.up_to_date(#[trigger] ids@[q]),
            decreases ids.len() - p,
        {
            let at = ids[p];
            let ghost cur = self@;
            proof {
                assert(keys[p as int] == at.0);
                assert(keys.contains(at.0));
                assert(cur.has_intersection(at));
            }
            let _ = self.rebuild(at);
            proof {
                cur.lemma_rebuild_step(old(self)@, self@, at, at);
                assert forall|q: int| 0 <= q < p + 1 implies self@.up_to_date(
                    #[trigger] ids@[q],
                ) by {
                    if q < p {
                        assert(keys[q] < keys[p as int]);
                        assert(keys.contains(keys[q]));
                        assert(keys[q] == ids@[q].0);
                        assert(cur.has_intersection(ids@[q]));
                        cur.lemma_rebuild_step(old(self)@, self@, at, ids@[q]);
                    }
                }
            }
            p += 1;
        }
        proof {
            assert forall|i: IntersectionID| #[trigger]
                self@.has_intersection(i) implies self@.up_to_date(i) by {
                assert(keys.contains(i.0));
                let c = choose|c: int| 0 <= c < keys.len() && keys[c] == i.0;
                assert(ids@[c] == i);
            }
        }
    }

    /// Installs a traffic control at an intersection. The turns recorded
    /// there are dropped: they have to be generated again.
    pub fn set_traffic_control(&mut self, at: IntersectionID, policy: TrafficControl) -> (res:
        Result<(), MapError>)
        requires
            old(self).wf(),
        ensures
            final(self).wf(),
            match res {
                Ok(_) => old(self)@.has_intersection(at) && final(self)@ == old(
                    self,
                )@.with_policy(at, policy@),
                Err(e) => !old(self)@.has_intersection(at) && e == MapError::UnknownIntersection(
                    at,
                ) && final(self)@ == old(self)@,
            },
    {
        if intersection_get(&self.intersections, at.0).is_none() {
            return Err(MapError::UnknownIntersection(at));
        }
        let x = intersection_get_mut(&mut self.intersections, at.0);
        x.policy = policy;
        x.turns.clear();
        proof {
            let m2 = old(self)@.with_policy(at, policy@);
            assert(self@.intersections =~= m2.intersections);
            assert(self@ == m2);
            old(self)@.lemma_with_policy_wf(at, policy@);
        }
        Ok(())
    }

    /// Removes a road, with its lanes and the navigation nodes bound to
    /// them. The two intersections at its ends no longer list it, and their
    /// turns are dropped: they have to be generated again.
    pub fn remove_road(&mut self, road: RoadID) -> (res: Result<(), MapError>)
        requires
            old(self).wf(),
        ensures
            final(self).wf(),
            match res {
                Ok(_) => old(self)@.has_road(road) && final(self)@ == old(self)@.remove_road(
                    road,
                ),
                Err(e) => !old(self)@.has_road(road) && e == MapError::UnknownRoad(road)
                    && final(self)@ == old(self)@,
            },
    {
        if road_get(&self.roads, road.0).is_none() {
            return Err(MapError::UnknownRoad(road));
        }
        let removed = road_remove(&mut self.roads, road.0);
        let src = removed.src;
        let dst = removed.dst;
        let mut list = removed.lanes_forward;
        let mut backward = removed.lanes_backward;
        list.append(&mut backward);
        proof {
            assert(old(self)@.has_road(road));
            assert(old(self)@.road_wf(road));
            assert(list@ == old(self)@.road(road).lanes_forward + old(self)@.road(
                road,
            ).lanes_backward);
            old(self)@.lemma_road_lanes(road, list@);
        }
        drop_lanes(&mut self.lanes, &mut self.navmesh, &list);
        let x = intersection_get_mut(&mut self.intersections, src.0);
        x.unlist(road);
        let y = intersection_get_mut(&mut self.intersections, dst.0);
        y.unlist(road);
        proof {
            let m2 = old(self)@.remove_road(road);
            assert(self@.roads =~= m2.roads);
            assert(self@.intersections =~= m2.intersections);
            assert(self@ == m2);
            old(self)@.lemma_remove_road_wf(road);
        }
        Ok(())
    }

    /// Removes an intersection at which no road ends.
    pub fn remove_intersection(&mut self, at: IntersectionID) -> (res: Result<(), MapError>)
        requires
            old(self).wf(),
        ensures
            final(self).wf(),
            match res {
                Ok(_) => {
                    &&& old(self)@.has_intersection(at)
                    &&& old(self)@.intersection(at).roads.len() == 0
                    &&& final(self)@ == old(self)@.remove_intersection(at)
                },
                Err(MapError::UnknownIntersection(i)) => i == at && !old(self)@.has_intersection(
                    at,
                ) && final(self)@ == old(self)@,
                Err(MapError::IntersectionInUse(i)) => i == at && old(self)@.has_intersection(at)
                    && old(self)@.intersection(at).roads.len() > 0 && final(self)@ == old(self)@,
                Err(_) => false,
            },
    {
        match intersection_get(&self.intersections, at.0) {
            Some(x) => {
                if x.roads.len() > 0 {
                    return Err(MapError::IntersectionInUse(at));
                }
            },
            None => {
                return Err(MapError::UnknownIntersection(at));
            },
        }
        let _ = intersection_remove(&mut self.intersections, at.0);
        proof {
            let m2 = old(self)@.remove_intersection(at);
            assert(self@.intersections =~= m2.intersections);
            assert(self@ == m2);
            old(self)@.lemma_remove_intersection_wf(at);
        }
        Ok(())
    }

    /// The identifiers of the lanes of the map, in rising order.
    pub fn lane_ids(&self) -> (ids: Vec<LaneID>)
        ensures
            lists_slots(ids@.map_values(|id: LaneID| id.0), self@.lanes.dom()),
    {
        let keys = lane_keys(&self.lanes);
        let mut ids: Vec<LaneID> = Vec::new();
        let mut k: usize = 0;
        while k < keys.len()
            invariant
                k <= keys.len(),
                ids.len() == k,
                forall|j: int| 0 <= j < k ==> (#[trigger] ids@[j]).0 == keys@[j],
            decreases keys.len() - k,
        {
            ids.push(LaneID(keys[k]));
            k += 1;
        }
        proof {
            assert(ids@.map_values(|id: LaneID| id.0) =~= keys@);
        }
        ids
    }

    /// The identifiers of the roads of the map, in rising order.
    pub fn road_ids(&self) -> (ids: Vec<RoadID>)
        ensures
            lists_slots(ids@.map_values(|id: RoadID| id.0), self@.roads.dom()),
    {
        let keys = road_keys(&self.roads);
        let mut ids: Vec<RoadID> = Vec::new();
        let mut k: usize = 0;
        while k < keys.len()
            invariant
                k <= keys.len(),
                ids.len() == k,
                forall|j: int| 0 <= j < k ==> (#[trigger] ids@[j]).0 == keys@[j],
            decreases keys.len() - k,
        {
            ids.push(RoadID(keys[k]));
            k += 1;
        }
        proof {
            assert(ids@.map_values(|id: RoadID| id.0) =~= keys@);
        }
        ids
    }

    /// The identifiers of the intersections of the map, in rising order.
    pub fn intersection_ids(&self) -> (ids: Vec<IntersectionID>)
        ensures
            lists_slots(ids@.map_values(|id: IntersectionID| id.0), self@.intersections.dom()),
    {
        let keys = intersection_keys(&self.intersections);
        let mut ids: Vec<IntersectionID> = Vec::new();
        let mut k: usize = 0;
        while k < keys.len()
            invariant
                k <= keys.len(),
                ids.len() == k,
                forall|j: int| 0 <= j < k ==> (#[trigger] ids@[j]).0 == keys@[j],
            decreases keys.len() - k,
        {
            ids.push(IntersectionID(keys[k]));
            k += 1;
        }
        proof {
            assert(ids@.map_values(|id: IntersectionID| id.0) =~= keys@);
        }
        ids
    }

    /// The identifiers of the navigation nodes of the map, in rising order.
    pub fn node_ids(&self) -> (ids: Vec<NavNodeID>)
        ensures
            lists_slots(ids@.map_values(|id: NavNodeID| id.0), self@.nodes.dom()),
    {
        let keys = self.navmesh.keys();
        let mut ids: Vec<NavNodeID> = Vec::new();
        let mut k: usize = 0;
        while k < keys.len()
            invariant
                k <= keys.len(),
                ids.len() == k,
                forall|j: int| 0 <= j < k ==> (#[trigger] ids@[j]).0 == keys@[j],
            decreases keys.len() - k,
        {
            ids.push(NavNodeID(keys[k]));
            k += 1;
        }
        proof {
            assert(ids@.map_values(|id: NavNodeID| id.0) =~= keys@);
        }
        ids
    }

    /// The map that holds the given entities, each in the slot at which it
    /// stands in its list. Nothing is checked: the map may break the rules.
    pub(crate) fn from_slots(
        intersections: Vec<Option<Intersection>>,
        roads: Vec<Option<Road>>,
        lanes: Vec<Option<Lane>>,
        nodes: Vec<Option<NavNode>>,
    ) -> (map: RoadMap)
        ensures
            map@ == (MapModel {
                intersections: held(intersection_records(intersections@)),
                roads: held(road_records(roads@)),
                lanes: held(lanes@),
                nodes: held(nodes@),
            }),
    {
        let (x_slots, xs) = occupied(intersections);
        let (r_slots, rs) = occupied(roads);
        let (l_slots, ls) = occupied(lanes);
        let ghost (xk, xe) = (x_slots@, xs@);
        let ghost (rk, re) = (r_slots@, rs@);
        let ghost (lk, le) = (l_slots@, ls@);
        let map = RoadMap {
            intersections: intersection_arena_from(x_slots, xs),
            roads: road_arena_from(r_slots, rs),
            lanes: lane_arena_from(l_slots, ls),
            navmesh: NavMesh::from_slots(nodes),
        };
        proof {
            lemma_arena_of_pairs(intersections@, xk, xe, intersection_slots(map.intersections));
            lemma_arena_of_pairs(roads@, rk, re, road_slots(map.roads));
            lemma_arena_of_pairs(lanes@, lk, le, lane_slots(map.lanes));
            assert(map@.intersections =~= held(intersection_records(intersections@)));
            assert(map@.roads =~= held(road_records(roads@)));
        }
        map
    }

    /// The intersection in a slot, copied, if the slot holds one.
    pub(crate) fn intersection_record(&self, k: usize) -> (found: Option<Intersection>)
        ensures
            self@.intersections.dom().contains(k) == found.is_some(),
            found matches Some(x) ==> x@ == self@.intersections[k],
    {
        match intersection_get(&self.intersections, k) {
            Some(x) => Some(x.clone()),
            None => None,
        }
    }

    /// The road in a slot, copied, if the slot holds one.
    pub(crate) fn road_record(&self, k: usize) -> (found: Option<Road>)
        ensures
            self@.roads.dom().contains(k) == found.is_some(),
            found matches Some(r) ==> r@ == self@.roads[k],
    {
        match road_get(&self.roads, k) {
            Some(r) => Some(r.clone()),
            None => None,
        }
    }

    /// The arena of the lanes.
    pub(crate) fn lane_store(&self) -> (store: &Slab<Lane>)
        ensures
            lane_slots(*store) == self@.lanes,
    {
        &self.lanes
    }

    /// The lane with the given identifier, if the map has one.
    pub fn lane(&self, id: LaneID) -> (found: Option<Lane>)
        ensures
            found == (if self@.has_lane(id) {
                Some(self@.lane(id))
            } else {
                None
            }),
    {
        match lane_get(&self.lanes, id.0) {
            Some(lane) => Some(*lane),
            None => None,
        }
    }

    /// The road with the given identifier, if the map has one.
    pub fn road(&self, id: RoadID) -> (found: Option<&Road>)
        ensures
            found.is_some() == self@.has_road(id),
            found matches Some(road) ==> road@ == self@.road(id),
    {
        road_get(&self.roads, id.0)
    }

    /// The intersection with the given identifier, if the map has one.
    pub fn intersection(&self, id: IntersectionID) -> (found: Option<&Intersection>)
        ensures
            found.is_some() == self@.has_intersection(id),
            found matches Some(x) ==> x@ == self@.intersection(id),
    {
        intersection_get(&self.intersections, id.0)
    }

    /// The navigation node with the given identifier, if the map has one.
    pub fn node(&self, id: NavNodeID) -> (found: Option<NavNode>)
        ensures
            found == (if self@.has_node(id) {
                Some(self@.node(id))
            } else {
                None
            }),
    {
        self.navmesh.get(id)
    }
}

/// The lowest lane that ends at `at` and has no node bound there, if there
/// is such a lane.
pub(crate) fn first_unbound(lanes: &Slab<Lane>, at: IntersectionID) -> (found: Option<LaneID>)
    ensures
        match found {
            Some(l) => is_first_unbound(lane_slots(*lanes), at, l.0),
            None => all_bound_at(lane_slots(*lanes), at),
        },
{
    let keys = lane_keys(lanes);
    let ghost held = lane_slots(*lanes);
    let mut p: usize = 0;
    while p < keys.len()
        invariant
            p <= keys.len(),
            held == lane_slots(*lanes),
            forall|i: int, j: int| 0 <= i < j < keys.len() ==> keys[i] < keys[j],
            forall|k: usize| held.dom().contains(k) <==> keys@.contains(k),
            forall|q: int| 0 <= q < p ==> !unbound_at(held, at, #[trigger] keys@[q]),
        decreases keys.len() - p,
    {
        let k = keys[p];
        assert(keys@.contains(k));
        let lane = lane_get(lanes, k).unwrap();
        match lane.try_get_inter_node(at) {
            Err(crate::lane::LaneError::NodeUnbound) => {
                proof {
                    assert forall|j: usize| j < k implies !unbound_at(held, at, j) by {
                        if unbound_at(held, at, j) {
                            assert(keys@.contains(j));
                            let q = choose|q: int| 0 <= q < keys@.len() && keys@[q] == j;
                            if q > p {
                                assert(keys[p as int] < keys[q]);
                            }
                            assert(q < p);
                            assert(!unbound_at(held, at, keys@[q]));
                        }
                    }
                }
                return Some(LaneID(k));
            },
            _ => {},
        }
        p += 1;
    }
    proof {
        assert forall|k: usize| #[trigger]
            held.dom().contains(k) && held[k].touches(at) implies held[k].node_at(at).is_some() by {
            assert(keys@.contains(k));
            let q = choose|q: int| 0 <= q < keys@.len() && keys@[q] == k;
            assert(!unbound_at(held, at, keys@[q]));
        }
    }
    None
}

/// Takes the listed lanes out of the arena, and the nodes bound to them out
/// of the mesh.
fn drop_lanes(lanes: &mut Slab<Lane>, mesh: &mut NavMesh, list: &Vec<LaneID>)
    requires
        list@.no_duplicates(),
        forall|j: int|
            0 <= j < list@.len() ==> lane_slots(*old(lanes)).dom().contains(
                (#[trigger] list@[j]).0,
            ),
    ensures
        lane_slots(*final(lanes)) == lane_slots(*old(lanes)).remove_keys(
            slots_of(list@, list@.len() as int),
        ),
        final(mesh)@ == old(mesh)@.remove_keys(
            nodes_of(lane_slots(*old(lanes)), list@, list@.len() as int),
        ),
{
    let ghost held = lane_slots(*lanes);
    let ghost nodes = mesh@;
    let mut k: usize = 0;
    proof {
        assert(held.remove_keys(slots_of(list@, 0)) =~= held);
        assert(nodes.remove_keys(nodes_of(held, list@, 0)) =~= nodes);
    }
    while k < list.len()
        invariant
            k <= list.len(),
            list@.no_duplicates(),
            forall|j: int| 0 <= j < list@.len() ==> held.dom().contains((#[trigger] list@[j]).0),
            lane_slots(*lanes) == held.remove_keys(slots_of(list@, k as int)),
            mesh@ == nodes.remove_keys(nodes_of(held, list@, k as int)),
        decreases list.len() - k,
    {
        let l = list[k];
        proof {
            assert(held.dom().contains(list@[k as int].0));
            if slots_of(list@, k as int).contains(l.0) {
                let j = choose|j: int| 0 <= j < k && (#[trigger] list@[j]).0 == l.0;
                assert(list@[j] == list@[k as int]);
            }
        }
        let lane = lane_remove(lanes, l.0);
        let ghost mesh0 = mesh@;
        match lane.src_node {
            Some(n) => {
                let _ = mesh.remove_node(n);
            },
            None => {
                assert(mesh@ =~= mesh0);
            },
        }
        let ghost mesh1 = mesh@;
        match lane.dst_node {
            Some(n) => {
                let _ = mesh.remove_node(n);
            },
            None => {
                assert(mesh@ =~= mesh1);
            },
        }
        proof {
            assert(lane == held[l.0]);
            assert forall|x: usize|
                slots_of(list@, k as int + 1).contains(x) <==> slots_of(list@, k as int).contains(
                    x,
                ) || x == l.0 by {
                if slots_of(list@, k as int + 1).contains(x) {
                    let j = choose|j: int| 0 <= j < k + 1 && (#[trigger] list@[j]).0 == x;
                    if j < k {
                        assert(slots_of(list@, k as int).contains(x));
                    }
                }
                if slots_of(list@, k as int).contains(x) {
                    let j = choose|j: int| 0 <= j < k && (#[trigger] list@[j]).0 == x;
                    assert(0 <= j < k + 1 && list@[j].0 == x);
                }
                if x == l.0 {
                    assert(list@[k as int].0 == x);
                }
            }
            assert(lane_slots(*lanes) =~= held.remove_keys(slots_of(list@, k as int + 1)));
            assert forall|x: usize|
                nodes_of(held, list@, k as int + 1).contains(x) <==> nodes_of(
                    held,
                    list@,
                    k as int,
                ).contains(x) || lane_has_node(lane, x) by {
                if nodes_of(held, list@, k as int + 1).contains(x) {
                    let j = choose|j: int|
                        0 <= j < k + 1 && lane_has_node(held[(#[trigger] list@[j]).0], x);
                    if j < k {
                        assert(nodes_of(held, list@, k as int).contains(x));
                    }
                }
                if nodes_of(held, list@, k as int).contains(x) {
                    let j = choose|j: int|
                        0 <= j < k && lane_has_node(held[(#[trigger] list@[j]).0], x);
                    assert(0 <= j < k + 1 && lane_has_node(held[list@[j].0], x));
                }
                if lane_has_node(lane, x) {
                    assert(lane_has_node(held[list@[k as int].0], x));
                }
            }
            assert(mesh@ =~= nodes.remove_keys(nodes_of(held, list@, k as int + 1)));
        }
        k += 1;
    }
}

/// Gives the lane `l` a node at its end `at`, unless it has one.
fn bind_end(lanes: &mut Slab<Lane>, mesh: &mut NavMesh, l: LaneID, at: IntersectionID)
    requires
        lane_slots(*old(lanes)).dom().contains(l.0),
        lane_slots(*old(lanes))[l.0].touches(at),
    ensures
        lane_slots(*old(lanes))[l.0].node_at(at).is_some() ==> lane_slots(*final(lanes))
            == lane_slots(*old(lanes)) && final(mesh)@ == old(mesh)@,
        lane_slots(*old(lanes))[l.0].node_at(at).is_none() ==> ({
            let n = NavNodeID(old(mesh).vacant());
            &&& !old(mesh)@.dom().contains(n.0)
            &&& final(mesh)@ == old(mesh)@.insert(n.0, NavNode { id: n, lane: l, at })
            &&& lane_slots(*final(lanes)) == lane_slots(*old(lanes)).insert(
                l.0,
                lane_slots(*old(lanes))[l.0].bound_at(at, n),
            )
        }),
{
    let lane = lane_get_mut(lanes, l.0);
    match lane.try_get_inter_node(at) {
        Ok(_) => {},
        Err(_) => {
            let n = mesh.add_node(l, at);
            lane.set_inter_node(at, n);
        },
    }
    proof {
        let before = lane_slots(*old(lanes));
        if before[l.0].node_at(at).is_some() {
            assert(lane_slots(*lanes) =~= before);
        }
    }
}

/// Lanes that are bound at `at` stay bound while nodes are built at `at`.
proof fn lemma_bound_kept(before: MapModel, after: MapModel, list: Seq<LaneID>, at: IntersectionID)
    requires
        before.nav_progress(after, at),
        forall|j: int| 0 <= j < list.len() ==> before.has_lane(#[trigger] list[j]),
        bound_prefix(before.lanes, list, list.len() as int, at),
    ensures
        bound_prefix(after.lanes, list, list.len() as int, at),
{
    assert forall|j: int| 0 <= j < list.len() implies after.lanes[(#[trigger] list[j]).0].node_at(
        at,
    ).is_some() by {
        assert(before.has_lane(list[j]));
        assert(lane_rebound(before.lane(list[j]), after.lane(list[j]), at, before.nodes));
    }
}

/// The same, for one of the lists of a road of the map.
proof fn lemma_prefix_kept(
    before: MapModel,
    after: MapModel,
    list: Seq<LaneID>,
    at: IntersectionID,
    road: RoadID,
    direction: LaneDirection,
)
    requires
        before.nav_progress(after, at),
        forall|j: int| 0 <= j < list.len() ==> before.lane_of(#[trigger] list[j], road, direction),
        bound_prefix(before.lanes, list, list.len() as int, at),
    ensures
        bound_prefix(after.lanes, list, list.len() as int, at),
        forall|j: int| 0 <= j < list.len() ==> before.has_lane(#[trigger] list[j]),
{
    assert forall|j: int| 0 <= j < list.len() implies before.has_lane(#[trigger] list[j]) by {
        assert(before.lane_of(list[j], road, direction));
    }
    lemma_bound_kept(before, after, list, at);
}

} // verus!
