//! Records of a map: what a map holds, as plain lists, for saving and
//! loading.
//!
//! A record lists each kind of entity by slot: the entry at `k` is the
//! entity in slot `k`, or `None` where the slot is vacant. Loading a record
//! checks it against the rules of a map, so a record that was damaged on the
//! way is refused and never becomes a map.

use vstd::prelude::*;
use crate::error::LoadError;
use crate::intersection::{Intersection, IntersectionModel};
use crate::lane::Lane;
use crate::map::RoadMap;
use crate::model::{lists_slots, MapModel};
use crate::navmesh::NavNode;
use crate::road::{Road, RoadModel};

verus! {

/// What a map holds, by slot.
pub struct Snapshot {
    pub intersections: Vec<Option<Intersection>>,
    pub roads: Vec<Option<Road>>,
    pub lanes: Vec<Option<Lane>>,
    pub nodes: Vec<Option<NavNode>>,
}

/// What a [`Snapshot`] holds, as mathematical values.
pub struct SnapshotModel {
    pub intersections: Seq<Option<IntersectionModel>>,
    pub roads: Seq<Option<RoadModel>>,
    pub lanes: Seq<Option<Lane>>,
    pub nodes: Seq<Option<NavNode>>,
}

/// The entities that a list holds, by slot.
pub open spec fn held<M>(slots: Seq<Option<M>>) -> Map<usize, M> {
    Map::new(
        |k: usize| k < slots.len() && slots[k as int].is_some(),
        |k: usize| slots[k as int].unwrap(),
    )
}

/// The list records the arena `m`: its entry at each slot is what the arena
/// holds there, it covers every slot that the arena holds, and it does not
/// end in a vacant slot.
pub open spec fn records<M>(slots: Seq<Option<M>>, m: Map<usize, M>) -> bool {
    &&& forall|k: usize| #[trigger] m.dom().contains(k) ==> k < slots.len()
    &&& forall|j: int|
        0 <= j < slots.len() ==> #[trigger] slots[j] == (if m.dom().contains(j as usize) {
            Some(m[j as usize])
        } else {
            None
        })
    &&& (slots.len() == 0 || slots.last().is_some())
}

/// The list of roads, as mathematical values.
pub open spec fn road_records(slots: Seq<Option<Road>>) -> Seq<Option<RoadModel>> {
    Seq::new(
        slots.len(),
        |j: int|
            match slots[j] {
                Some(r) => Some(r@),
                None => None,
            },
    )
}

/// The list of intersections, as mathematical values.
pub open spec fn intersection_records(slots: Seq<Option<Intersection>>) -> Seq<
    Option<IntersectionModel>,
> {
    Seq::new(
        slots.len(),
        |j: int|
            match slots[j] {
                Some(x) => Some(x@),
                None => None,
            },
    )
}

impl View for Snapshot {
    type V = SnapshotModel;

    open spec fn view(&self) -> SnapshotModel {
        SnapshotModel {
            intersections: intersection_records(self.intersections@),
            roads: road_records(self.roads@),
            lanes: self.lanes@,
            nodes: self.nodes@,
        }
    }
}

impl SnapshotModel {
    /// The map that the record describes.
    pub open spec fn to_map(self) -> MapModel {
        MapModel {
            intersections: held(self.intersections),
            roads: held(self.roads),
            lanes: held(self.lanes),
            nodes: held(self.nodes),
        }
    }

    /// The record is the record of the map `m`.
    pub open spec fn records(self, m: MapModel) -> bool {
        &&& records(self.intersections, m.intersections)
        &&& records(self.roads, m.roads)
        &&& records(self.lanes, m.lanes)
        &&& records(self.nodes, m.nodes)
    }

    /// The record of a map describes that map: identifiers, kinds,
    /// directions, node bindings and all the rest come back as they were.
    pub proof fn lemma_record_restores(self, m: MapModel)
        requires
            self.records(m),
        ensures
            self.to_map() == m,
    {
        lemma_held_of_record(self.intersections, m.intersections);
        lemma_held_of_record(self.roads, m.roads);
        lemma_held_of_record(self.lanes, m.lanes);
        lemma_held_of_record(self.nodes, m.nodes);
    }
}

/// What the record of an arena holds is what the arena holds.
pub proof fn lemma_held_of_record<M>(slots: Seq<Option<M>>, m: Map<usize, M>)
    requires
        records(slots, m),
    ensures
        held(slots) == m,
{
    assert forall|k: usize| held(slots).dom().contains(k) <==> m.dom().contains(k) by {
        if k < slots.len() {
            assert(slots[k as int] == (if m.dom().contains(k) {
                Some(m[k])
            } else {
                None
            }));
        }
    }
    assert forall|k: usize| m.dom().contains(k) implies held(slots)[k] == m[k] by {
        assert(slots[k as int] == Some(m[k]));
    }
    assert(held(slots) =~= m);
}

/// The occupied slots of a list and the entities in them, as two lists of
/// one length, from the highest slot down.
pub fn occupied<T>(list: Vec<Option<T>>) -> (pairs: (Vec<usize>, Vec<T>))
    ensures
        pairs.0.len() == pairs.1.len(),
        forall|i: int, j: int| 0 <= i < j < pairs.0.len() ==> pairs.0[i] > pairs.0[j],
        forall|i: int|
            0 <= i < pairs.0.len() ==> (#[trigger] pairs.0[i]) < list.len()
                && list[pairs.0[i] as int] == Some(pairs.1[i]),
        forall|k: int|
            0 <= k < list.len() && (#[trigger] list[k]).is_some() ==> pairs.0@.contains(
                k as usize,
            ),
{
    let ghost all = list@;
    let mut rest = list;
    let mut slots: Vec<usize> = Vec::new();
    let mut entities: Vec<T> = Vec::new();
    while rest.len() > 0
        invariant
            rest.len() <= all.len(),
            rest@ == all.take(rest.len() as int),
            slots.len() == entities.len(),
            forall|i: int, j: int| 0 <= i < j < slots.len() ==> slots[i] > slots[j],
            forall|i: int|
                0 <= i < slots.len() ==> rest.len() <= (#[trigger] slots[i]) < all.len()
                    && all[slots[i] as int] == Some(entities[i]),
            forall|k: int|
                rest.len() <= k < all.len() && (#[trigger] all[k]).is_some() ==> slots@.contains(
                    k as usize,
                ),
        decreases rest.len(),
    {
        let k = rest.len() - 1;
        let ghost before = slots@;
        let entry = rest.pop();
        assert(rest@ =~= all.take(k as int));
        match entry {
            Some(Some(x)) => {
                slots.push(k);
                entities.push(x);
                proof {
                    assert(slots@[before.len() as int] == k);
                    assert forall|c: int|
                        rest.len() <= c < all.len() && (#[trigger] all[c]).is_some() implies
                        slots@.contains(c as usize) by {
                        if c > k {
                            assert(before.contains(c as usize));
                            let i = choose|i: int| 0 <= i < before.len() && before[i] == c as usize;
                            assert(slots@[i] == c as usize);
                        }
                    }
                }
            },
            _ => {
                assert(all[k as int].is_none());
            },
        }
    }
    (slots, entities)
}

/// An arena that holds the occupied slots of a list, each with its entity,
/// holds what the list holds.
pub proof fn lemma_arena_of_pairs<T>(
    list: Seq<Option<T>>,
    keys: Seq<usize>,
    entities: Seq<T>,
    m: Map<usize, T>,
)
    requires
        keys.len() == entities.len(),
        forall|i: int|
            0 <= i < keys.len() ==> (#[trigger] keys[i]) < list.len() && list[keys[i] as int]
                == Some(entities[i]),
        forall|k: int|
            0 <= k < list.len() && (#[trigger] list[k]).is_some() ==> keys.contains(k as usize),
        forall|k: usize| m.dom().contains(k) <==> keys.contains(k),
        forall|i: int| 0 <= i < keys.len() ==> m[#[trigger] keys[i]] == entities[i],
    ensures
        m == held(list),
{
    assert forall|k: usize| m.dom().contains(k) <==> held(list).dom().contains(k) by {
        if m.dom().contains(k) {
            assert(keys.contains(k));
            let i = choose|i: int| 0 <= i < keys.len() && keys[i] == k;
            assert(keys[i] < list.len());
        }
        if held(list).dom().contains(k) {
            assert(list[k as int].is_some());
            assert(keys.contains(k));
        }
    }
    assert forall|k: usize| m.dom().contains(k) implies m[k] == held(list)[k] by {
        assert(keys.contains(k));
        let i = choose|i: int| 0 <= i < keys.len() && keys[i] == k;
        assert(m[keys[i]] == entities[i]);
    }
    assert(m =~= held(list));
}

/// Appends `entity` to the list at slot `k`, after as many vacant slots as
/// that takes.
fn place<T>(out: &mut Vec<Option<T>>, k: usize, entity: T)
    requires
        old(out).len() <= k,
    ensures
        final(out).len() == k + 1,
        forall|j: int| 0 <= j < old(out).len() ==> final(out)@[j] == old(out)@[j],
        forall|j: int| old(out).len() <= j < k ==> final(out)@[j].is_none(),
        final(out)@[k as int] == Some(entity),
{
    while out.len() < k
        invariant
            old(out).len() <= out.len() <= k,
            forall|j: int| 0 <= j < old(out).len() ==> out@[j] == old(out)@[j],
            forall|j: int| old(out).len() <= j < out.len() ==> out@[j].is_none(),
        decreases k - out.len(),
    {
        out.push(None);
    }
    out.push(Some(entity));
}

/// The list is the record of `m` as far as it goes, and the slots of `keys`
/// from `p` on are still to come.
pub open spec fn records_upto<M>(
    slots: Seq<Option<M>>,
    m: Map<usize, M>,
    keys: Seq<usize>,
    p: int,
) -> bool {
    &&& forall|j: int|
        0 <= j < slots.len() ==> #[trigger] slots[j] == (if m.dom().contains(j as usize) {
            Some(m[j as usize])
        } else {
            None
        })
    &&& forall|q: int| 0 <= q < p ==> #[trigger] keys[q] < slots.len()
    &&& forall|q: int| p <= q < keys.len() ==> slots.len() <= #[trigger] keys[q]
    &&& (slots.len() == 0 || slots.last().is_some())
}

/// Placing the entity of the next slot keeps the list a record as far as it
/// goes.
proof fn lemma_place<M>(
    before: Seq<Option<M>>,
    after: Seq<Option<M>>,
    m: Map<usize, M>,
    keys: Seq<usize>,
    p: int,
)
    requires
        lists_slots(keys, m.dom()),
        0 <= p < keys.len(),
        records_upto(before, m, keys, p),
        after.len() == keys[p] + 1,
        forall|j: int| 0 <= j < before.len() ==> after[j] == before[j],
        forall|j: int| before.len() <= j < keys[p] ==> after[j].is_none(),
        after[keys[p] as int] == Some(m[keys[p]]),
    ensures
        records_upto(after, m, keys, p + 1),
{
    assert(keys.contains(keys[p]));
    assert forall|j: int| 0 <= j < after.len() implies #[trigger] after[j] == (if m.dom().contains(
        j as usize,
    ) {
        Some(m[j as usize])
    } else {
        None
    }) by {
        if j < before.len() {
            assert(after[j] == before[j]);
        } else if j < keys[p] {
            if m.dom().contains(j as usize) {
                assert(keys.contains(j as usize));
                let c = choose|c: int| 0 <= c < keys.len() && keys[c] == j as usize;
                if c < p {
                    assert(keys[c] < before.len());
                } else if c > p {
                    assert(keys[p] < keys[c]);
                }
            }
        }
    }
    assert forall|q: int| 0 <= q < p + 1 implies #[trigger] keys[q] < after.len() by {
        if q < p {
            assert(keys[q] < keys[p]);
        }
    }
    assert forall|q: int| p + 1 <= q < keys.len() implies after.len() <= #[trigger] keys[q] by {
        assert(keys[p] < keys[q]);
    }
}

/// Once every slot is placed, the list is the record.
proof fn lemma_placed_all<M>(slots: Seq<Option<M>>, m: Map<usize, M>, keys: Seq<usize>)
    requires
        lists_slots(keys, m.dom()),
        records_upto(slots, m, keys, keys.len() as int),
    ensures
        records(slots, m),
{
    assert forall|k: usize| #[trigger] m.dom().contains(k) implies k < slots.len() by {
        assert(keys.contains(k));
        let c = choose|c: int| 0 <= c < keys.len() && keys[c] == k;
        assert(keys[c] < slots.len());
    }
}

impl RoadMap {
    /// Records what the map holds.
    pub fn snapshot(&self) -> (snap: Snapshot)
        ensures
            snap@.records(self@),
    {
        let ghost m = self@;
        let mut intersections: Vec<Option<Intersection>> = Vec::new();
        let ids = self.intersection_ids();
        let ghost keys = ids@.map_values(|id: crate::ids::IntersectionID| id.0);
        let mut p: usize = 0;
        while p < ids.len()
            invariant
                p <= ids.len(),
                m == self@,
                keys == ids@.map_values(|id: crate::ids::IntersectionID| id.0),
                lists_slots(keys, m.intersections.dom()),
                records_upto(
                    intersection_records(intersections@),
                    m.intersections,
                    keys,
                    p as int,
                ),
            decreases ids.len() - p,
        {
            let k = ids[p].0;
            assert(keys[p as int] == k);
            assert(keys.contains(k));
            let ghost before = intersection_records(intersections@);
            let x = self.intersection_record(k).unwrap();
            assert(intersections.len() <= keys[p as int]);
            place(&mut intersections, k, x);
            proof {
                lemma_place(
                    before,
                    intersection_records(intersections@),
                    m.intersections,
                    keys,
                    p as int,
                );
            }
            p += 1;
        }
        proof {
            lemma_placed_all(intersection_records(intersections@), m.intersections, keys);
        }
        let mut roads: Vec<Option<Road>> = Vec::new();
        let ids = self.road_ids();
        let ghost keys = ids@.map_values(|id: crate::ids::RoadID| id.0);
        let mut p: usize = 0;
        while p < ids.len()
            invariant
                p <= ids.len(),
                m == self@,
                keys == ids@.map_values(|id: crate::ids::RoadID| id.0),
                lists_slots(keys, m.roads.dom()),
                records_upto(road_records(roads@), m.roads, keys, p as int),
            decreases ids.len() - p,
        {
            let k = ids[p].0;
            assert(keys[p as int] == k);
            assert(keys.contains(k));
            let ghost before = road_records(roads@);
            let r = self.road_record(k).unwrap();
            assert(roads.len() <= keys[p as int]);
            place(&mut roads, k, r);
            proof {
                lemma_place(before, road_records(roads@), m.roads, keys, p as int);
            }
            p += 1;
        }
        proof {
            lemma_placed_all(road_records(roads@), m.roads, keys);
        }
        let mut lanes: Vec<Option<Lane>> = Vec::new();
        let ids = self.lane_ids();
        let ghost keys = ids@.map_values(|id: crate::ids::LaneID| id.0);
        let mut p: usize = 0;
        while p < ids.len()
            invariant
                p <= ids.len(),
                m == self@,
                keys == ids@.map_values(|id: crate::ids::LaneID| id.0),
                lists_slots(keys, m.lanes.dom()),
                records_upto(lanes@, m.lanes, keys, p as int),
            decreases ids.len() - p,
        {
            let k = ids[p].0;
            assert(keys[p as int] == k);
            assert(keys.contains(k));
            let ghost before = lanes@;
            let lane = self.lane(ids[p]).unwrap();
            assert(lanes.len() <= keys[p as int]);
            place(&mut lanes, k, lane);
            proof {
                lemma_place(before, lanes@, m.lanes, keys, p as int);
            }
            p += 1;
        }
        proof {
            lemma_placed_all(lanes@, m.lanes, keys);
        }
        let mut nodes: Vec<Option<NavNode>> = Vec::new();
        let ids = self.node_ids();
        let ghost keys = ids@.map_values(|id: crate::ids::NavNodeID| id.0);
        let mut p: usize = 0;
        while p < ids.len()
            invariant
                p <= ids.len(),
                m == self@,
                keys == ids@.map_values(|id: crate::ids::NavNodeID| id.0),
                lists_slots(keys, m.nodes.dom()),
                records_upto(nodes@, m.nodes, keys, p as int),
            decreases ids.len() - p,
        {
            let k = ids[p].0;
            assert(keys[p as int] == k);
            assert(keys.contains(k));
            let ghost before = nodes@;
            let node = self.node(ids[p]).unwrap();
            assert(nodes.len() <= keys[p as int]);
            place(&mut nodes, k, node);
            proof {
                lemma_place(before, nodes@, m.nodes, keys, p as int);
            }
            p += 1;
        }
        proof {
            lemma_placed_all(nodes@, m.nodes, keys);
        }
        Snapshot { intersections, roads, lanes, nodes }
    }

    /// Makes a map of a record, if the record describes a map that keeps
    /// the rules. Otherwise the first entity that breaks them is named.
    ///
    /// The record of a map that keeps the rules is never refused, and gives
    /// that map back.
    pub fn restore(snap: Snapshot) -> (res: Result<RoadMap, LoadError>)
        ensures
            match res {
                Ok(map) => map.wf() && map@ == snap@.to_map(),
                Err(e) => snap@.to_map().fault(e),
            },
    {
        let Snapshot { intersections, roads, lanes, nodes } = snap;
        let map = RoadMap::from_slots(intersections, roads, lanes, nodes);
        match map.validate() {
            Ok(_) => Ok(map),
            Err(e) => Err(e),
        }
    }
}

} // verus!
