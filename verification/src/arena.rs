//! The slot arenas that hold the entities of a map.
//!
//! The arenas are `slab::Slab`s. Nothing in this file is proved: it states
//! what the rest of the library takes for granted of that crate. What an
//! arena holds is named as a map from slot to entity, and each function
//! below says what one method of `Slab` does to that map.
//!
//! Each kind of entity has an arena of its own type, and so its own copy of
//! the statements. The four copies differ in that type alone.

use vstd::prelude::*;
use slab::Slab;
use crate::intersection::Intersection;
use crate::lane::Lane;
use crate::navmesh::NavNode;
use crate::road::Road;

verus! {

/// `slab::Slab`, taken as it is: nothing is known of what a value of it
/// holds but what the functions below say.
#[verifier::external_type_specification]
#[verifier::external_body]
#[verifier::reject_recursive_types(T)]
pub struct ExSlab<T>(Slab<T>);

// Lanes.

/// The lanes held by an arena, by slot.
pub uninterp spec fn lane_slots(store: Slab<Lane>) -> Map<usize, Lane>;

/// The slot that the next lane inserted into an arena will occupy.
pub uninterp spec fn lane_vacant(store: Slab<Lane>) -> usize;

/// `Slab::new`: an arena that holds nothing.
#[verifier::external_body]
pub(crate) fn lane_arena() -> (store: Slab<Lane>)
    ensures
        lane_slots(store).dom() == Set::<usize>::empty(),
{
    Slab::new()
}

/// `Slab::vacant_key`: the slot that the next insertion will use. No entity
/// occupies it.
#[verifier::external_body]
pub(crate) fn lane_vacant_key(store: &Slab<Lane>) -> (key: usize)
    ensures
        key == lane_vacant(*store),
        !lane_slots(*store).dom().contains(key),
{
    store.vacant_key()
}

/// `Slab::insert`: the value goes into the vacant slot, which is returned;
/// every other slot is left as it was.
#[verifier::external_body]
pub(crate) fn lane_insert(store: &mut Slab<Lane>, lane: Lane) -> (key: usize)
    ensures
        key == lane_vacant(*old(store)),
        lane_slots(*final(store)) == lane_slots(*old(store)).insert(key, lane),
{
    store.insert(lane)
}

/// `Slab::get`: the entity in a slot, if the slot is occupied.
#[verifier::external_body]
pub(crate) fn lane_get(store: &Slab<Lane>, key: usize) -> (found: Option<&Lane>)
    ensures
        found.is_some() == lane_slots(*store).dom().contains(key),
        found.is_some() ==> *found.unwrap() == lane_slots(*store)[key],
{
    store.get(key)
}

/// `Slab::get_mut` on an occupied slot: a reference to the entity in it.
/// What is written through the reference is what the slot holds afterwards;
/// every other slot is left as it was.
#[verifier::external_body]
pub(crate) fn lane_get_mut(store: &mut Slab<Lane>, key: usize) -> (lane: &mut Lane)
    requires
        lane_slots(*old(store)).dom().contains(key),
    ensures
        *lane == lane_slots(*old(store))[key],
        lane_slots(*final(store)) == lane_slots(*old(store)).insert(key, *final(lane)),
{
    store.get_mut(key).unwrap()
}

/// `Slab::remove` on an occupied slot: the entity leaves the arena and is
/// returned; every other slot is left as it was.
#[verifier::external_body]
pub(crate) fn lane_remove(store: &mut Slab<Lane>, key: usize) -> (lane: Lane)
    requires
        lane_slots(*old(store)).dom().contains(key),
    ensures
        lane == lane_slots(*old(store))[key],
        lane_slots(*final(store)) == lane_slots(*old(store)).remove(key),
{
    store.remove(key)
}

/// `Slab::iter`: the occupied slots, each once, in rising order.
#[verifier::external_body]
pub(crate) fn lane_keys(store: &Slab<Lane>) -> (keys: Vec<usize>)
    ensures
        forall|p: int, q: int| 0 <= p < q < keys.len() ==> keys[p] < keys[q],
        forall|k: usize| lane_slots(*store).dom().contains(k) <==> keys@.contains(k),
{
    let mut keys = Vec::new();
    for (key, _) in store.iter() {
        keys.push(key);
    }
    keys
}

/// `Slab::from_iter` on pairs of a slot and an entity, no slot given twice:
/// the arena holds each entity in its slot and nothing else. The pairs come
/// as two lists of one length. The arena takes space in proportion to the
/// highest slot.
#[verifier::external_body]
pub(crate) fn lane_arena_from(slots: Vec<usize>, entities: Vec<Lane>) -> (store: Slab<Lane>)
    requires
        slots.len() == entities.len(),
        forall|i: int, j: int| 0 <= i < j < slots.len() ==> slots[i] != slots[j],
    ensures
        forall|k: usize| lane_slots(store).dom().contains(k) <==> slots@.contains(k),
        forall|i: int| 0 <= i < slots.len() ==> lane_slots(store)[slots[i]] == entities[i],
{
    slots.into_iter().zip(entities).collect()
}

// Roads.

/// The roads held by an arena, by slot.
pub uninterp spec fn road_slots(store: Slab<Road>) -> Map<usize, Road>;

/// The slot that the next road inserted into an arena will occupy.
pub uninterp spec fn road_vacant(store: Slab<Road>) -> usize;

/// `Slab::new`: an arena that holds nothing.
#[verifier::external_body]
pub(crate) fn road_arena() -> (store: Slab<Road>)
    ensures
        road_slots(store).dom() == Set::<usize>::empty(),
{
    Slab::new()
}

/// `Slab::vacant_key`: the slot that the next insertion will use. No entity
/// occupies it.
#[verifier::external_body]
pub(crate) fn road_vacant_key(store: &Slab<Road>) -> (key: usize)
    ensures
        key == road_vacant(*store),
        !road_slots(*store).dom().contains(key),
{
    store.vacant_key()
}

/// `Slab::insert`: the value goes into the vacant slot, which is returned;
/// every other slot is left as it was.
#[verifier::external_body]
pub(crate) fn road_insert(store: &mut Slab<Road>, road: Road) -> (key: usize)
    ensures
        key == road_vacant(*old(store)),
        road_slots(*final(store)) == road_slots(*old(store)).insert(key, road),
{
    store.insert(road)
}

/// `Slab::get`: the entity in a slot, if the slot is occupied.
#[verifier::external_body]
pub(crate) fn road_get(store: &Slab<Road>, key: usize) -> (found: Option<&Road>)
    ensures
        found.is_some() == road_slots(*store).dom().contains(key),
        found.is_some() ==> *found.unwrap() == road_slots(*store)[key],
{
    store.get(key)
}

/// `Slab::get_mut` on an occupied slot: a reference to the entity in it.
/// What is written through the reference is what the slot holds afterwards;
/// every other slot is left as it was.
#[verifier::external_body]
pub(crate) fn road_get_mut(store: &mut Slab<Road>, key: usize) -> (road: &mut Road)
    requires
        road_slots(*old(store)).dom().contains(key),
    ensures
        *road == road_slots(*old(store))[key],
        road_slots(*final(store)) == road_slots(*old(store)).insert(key, *final(road)),
{
    store.get_mut(key).unwrap()
}

/// `Slab::remove` on an occupied slot: the entity leaves the arena and is
/// returned; every other slot is left as it was.
#[verifier::external_body]
pub(crate) fn road_remove(store: &mut Slab<Road>, key: usize) -> (road: Road)
    requires
        road_slots(*old(store)).dom().contains(key),
    ensures
        road == road_slots(*old(store))[key],
        road_slots(*final(store)) == road_slots(*old(store)).remove(key),
{
    store.remove(key)
}

/// `Slab::iter`: the occupied slots, each once, in rising order.
#[verifier::external_body]
pub(crate) fn road_keys(store: &Slab<Road>) -> (keys: Vec<usize>)
    ensures
        forall|p: int, q: int| 0 <= p < q < keys.len() ==> keys[p] < keys[q],
        forall|k: usize| road_slots(*store).dom().contains(k) <==> keys@.contains(k),
{
    let mut keys = Vec::new();
    for (key, _) in store.iter() {
        keys.push(key);
    }
    keys
}

/// `Slab::from_iter` on pairs of a slot and an entity, no slot given twice:
/// the arena holds each entity in its slot and nothing else. The pairs come
/// as two lists of one length. The arena takes space in proportion to the
/// highest slot.
#[verifier::external_body]
pub(crate) fn road_arena_from(slots: Vec<usize>, entities: Vec<Road>) -> (store: Slab<Road>)
    requires
        slots.len() == entities.len(),
        forall|i: int, j: int| 0 <= i < j < slots.len() ==> slots[i] != slots[j],
    ensures
        forall|k: usize| road_slots(store).dom().contains(k) <==> slots@.contains(k),
        forall|i: int| 0 <= i < slots.len() ==> road_slots(store)[slots[i]] == entities[i],
{
    slots.into_iter().zip(entities).collect()
}

// Intersections.

/// The intersections held by an arena, by slot.
pub uninterp spec fn intersection_slots(store: Slab<Intersection>) -> Map<usize, Intersection>;

/// The slot that the next intersection inserted into an arena will occupy.
pub uninterp spec fn intersection_vacant(store: Slab<Intersection>) -> usize;

/// `Slab::new`: an arena that holds nothing.
#[verifier::external_body]
pub(crate) fn intersection_arena() -> (store: Slab<Intersection>)
    ensures
        intersection_slots(store).dom() == Set::<usize>::empty(),
{
    Slab::new()
}

/// `Slab::vacant_key`: the slot that the next insertion will use. No entity
/// occupies it.
#[verifier::external_body]
pub(crate) fn intersection_vacant_key(store: &Slab<Intersection>) -> (key: usize)
    ensures
        key == intersection_vacant(*store),
        !intersection_slots(*store).dom().contains(key),
{
    store.vacant_key()
}

/// `Slab::insert`: the value goes into the vacant slot, which is returned;
/// every other slot is left as it was.
#[verifier::external_body]
pub(crate) fn intersection_insert(store: &mut Slab<Intersection>, x: Intersection) -> (key: usize)
    ensures
        key == intersection_vacant(*old(store)),
        intersection_slots(*final(store)) == intersection_slots(*old(store)).insert(key, x),
{
    store.insert(x)
}

/// `Slab::get`: the entity in a slot, if the slot is occupied.
#[verifier::external_body]
pub(crate) fn intersection_get(store: &Slab<Intersection>, key: usize) -> (found: Option<
    &Intersection,
>)
    ensures
        found.is_some() == intersection_slots(*store).dom().contains(key),
        found.is_some() ==> *found.unwrap() == intersection_slots(*store)[key],
{
    store.get(key)
}

/// `Slab::get_mut` on an occupied slot: a reference to the entity in it.
/// What is written through the reference is what the slot holds afterwards;
/// every other slot is left as it was.
#[verifier::external_body]
pub(crate) fn intersection_get_mut(store: &mut Slab<Intersection>, key: usize) -> (x:
    &mut Intersection)
    requires
        intersection_slots(*old(store)).dom().contains(key),
    ensures
        *x == intersection_slots(*old(store))[key],
        intersection_slots(*final(store)) == intersection_slots(*old(store)).insert(key, *final(x)),
{
    store.get_mut(key).unwrap()
}

/// `Slab::remove` on an occupied slot: the entity leaves the arena and is
/// returned; every other slot is left as it was.
#[verifier::external_body]
pub(crate) fn intersection_remove(store: &mut Slab<Intersection>, key: usize) -> (x: Intersection)
    requires
        intersection_slots(*old(store)).dom().contains(key),
    ensures
        x == intersection_slots(*old(store))[key],
        intersection_slots(*final(store)) == intersection_slots(*old(store)).remove(key),
{
    store.remove(key)
}

/// `Slab::iter`: the occupied slots, each once, in rising order.
#[verifier::external_body]
pub(crate) fn intersection_keys(store: &Slab<Intersection>) -> (keys: Vec<usize>)
    ensures
        forall|p: int, q: int| 0 <= p < q < keys.len() ==> keys[p] < keys[q],
        forall|k: usize| intersection_slots(*store).dom().contains(k) <==> keys@.contains(k),
{
    let mut keys = Vec::new();
    for (key, _) in store.iter() {
        keys.push(key);
    }
    keys
}

/// `Slab::from_iter` on pairs of a slot and an entity, no slot given twice:
/// the arena holds each entity in its slot and nothing else. The pairs come
/// as two lists of one length. The arena takes space in proportion to the
/// highest slot.
#[verifier::external_body]
pub(crate) fn intersection_arena_from(slots: Vec<usize>, entities: Vec<Intersection>) -> (store:
    Slab<Intersection>)
    requires
        slots.len() == entities.len(),
        forall|i: int, j: int| 0 <= i < j < slots.len() ==> slots[i] != slots[j],
    ensures
        forall|k: usize| intersection_slots(store).dom().contains(k) <==> slots@.contains(k),
        forall|i: int| 0 <= i < slots.len() ==> intersection_slots(store)[slots[i]] == entities[i],
{
    slots.into_iter().zip(entities).collect()
}

// Navigation nodes.

/// The nodes held by an arena, by slot.
pub uninterp spec fn node_slots(store: Slab<NavNode>) -> Map<usize, NavNode>;

/// The slot that the next node inserted into an arena will occupy.
pub uninterp spec fn node_vacant(store: Slab<NavNode>) -> usize;

/// `Slab::new`: an arena that holds nothing.
#[verifier::external_body]
pub(crate) fn node_arena() -> (store: Slab<NavNode>)
    ensures
        node_slots(store).dom() == Set::<usize>::empty(),
{
    Slab::new()
}

/// `Slab::vacant_key`: the slot that the next insertion will use. No entity
/// occupies it.
#[verifier::external_body]
pub(crate) fn node_vacant_key(store: &Slab<NavNode>) -> (key: usize)
    ensures
        key == node_vacant(*store),
        !node_slots(*store).dom().contains(key),
{
    store.vacant_key()
}

/// `Slab::insert`: the value goes into the vacant slot, which is returned;
/// every other slot is left as it was.
#[verifier::external_body]
pub(crate) fn node_insert(store: &mut Slab<NavNode>, node: NavNode) -> (key: usize)
    ensures
        key == node_vacant(*old(store)),
        node_slots(*final(store)) == node_slots(*old(store)).insert(key, node),
{
    store.insert(node)
}

/// `Slab::get`: the entity in a slot, if the slot is occupied.
#[verifier::external_body]
pub(crate) fn node_get(store: &Slab<NavNode>, key: usize) -> (found: Option<&NavNode>)
    ensures
        found.is_some() == node_slots(*store).dom().contains(key),
        found.is_some() ==> *found.unwrap() == node_slots(*store)[key],
{
    store.get(key)
}

/// `Slab::remove` on an occupied slot: the entity leaves the arena and is
/// returned; every other slot is left as it was.
#[verifier::external_body]
pub(crate) fn node_remove(store: &mut Slab<NavNode>, key: usize) -> (node: NavNode)
    requires
        node_slots(*old(store)).dom().contains(key),
    ensures
        node == node_slots(*old(store))[key],
        node_slots(*final(store)) == node_slots(*old(store)).remove(key),
{
    store.remove(key)
}

/// `Slab::iter`: the occupied slots, each once, in rising order.
#[verifier::external_body]
pub(crate) fn node_keys(store: &Slab<NavNode>) -> (keys: Vec<usize>)
    ensures
        forall|p: int, q: int| 0 <= p < q < keys.len() ==> keys[p] < keys[q],
        forall|k: usize| node_slots(*store).dom().contains(k) <==> keys@.contains(k),
{
    let mut keys = Vec::new();
    for (key, _) in store.iter() {
        keys.push(key);
    }
    keys
}

/// `Slab::from_iter` on pairs of a slot and an entity, no slot given twice:
/// the arena holds each entity in its slot and nothing else. The pairs come
/// as two lists of one length. The arena takes space in proportion to the
/// highest slot.
#[verifier::external_body]
pub(crate) fn node_arena_from(slots: Vec<usize>, entities: Vec<NavNode>) -> (store: Slab<NavNode>)
    requires
        slots.len() == entities.len(),
        forall|i: int, j: int| 0 <= i < j < slots.len() ==> slots[i] != slots[j],
    ensures
        forall|k: usize| node_slots(store).dom().contains(k) <==> slots@.contains(k),
        forall|i: int| 0 <= i < slots.len() ==> node_slots(store)[slots[i]] == entities[i],
{
    slots.into_iter().zip(entities).collect()
}

} // verus!
