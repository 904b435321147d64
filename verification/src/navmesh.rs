//! The navigation mesh: the nodes at which lanes and turns begin and end.

use vstd::prelude::*;
use slab::Slab;
use crate::arena::{
    node_arena, node_arena_from, node_get, node_insert, node_keys, node_remove, node_slots,
    node_vacant, node_vacant_key,
};
use crate::ids::{IntersectionID, LaneID, NavNodeID};
use crate::snapshot::{held, lemma_arena_of_pairs, occupied};

verus! {

/// A node of the navigation mesh: the end of one lane at one intersection.
///
/// Where the node lies is not stored. It follows from the lane, from the
/// lane's place among the lanes of its road, and from the intersection.
#[derive(Clone, Copy, Debug, PartialEq, Eq, Structural)]
pub struct NavNode {
    pub id: NavNodeID,
    /// The lane whose end the node is.
    pub lane: LaneID,
    /// The intersection at which that end lies.
    pub at: IntersectionID,
}

/// The nodes of a map, each in the arena slot that names it.
pub struct NavMesh {
    nodes: Slab<NavNode>,
}

impl View for NavMesh {
    type V = Map<usize, NavNode>;

    closed spec fn view(&self) -> Map<usize, NavNode> {
        node_slots(self.nodes)
    }
}

impl NavMesh {
    /// The slot that the next node added to the mesh will occupy.
    pub closed spec fn vacant(&self) -> usize {
        node_vacant(self.nodes)
    }

    /// A mesh without nodes.
    pub fn new() -> (mesh: NavMesh)
        ensures
            mesh@ == Map::<usize, NavNode>::empty(),
    {
        let mesh = NavMesh { nodes: node_arena() };
        assert(mesh@ =~= Map::<usize, NavNode>::empty());
        mesh
    }

    /// The mesh that holds the given nodes, each in the slot at which it
    /// stands in the list.
    pub fn from_slots(slots: Vec<Option<NavNode>>) -> (mesh: NavMesh)
        ensures
            mesh@ == held(slots@),
    {
        let (keys, nodes) = occupied(slots);
        let ghost (ks, ns) = (keys@, nodes@);
        let mesh = NavMesh { nodes: node_arena_from(keys, nodes) };
        proof {
            lemma_arena_of_pairs(slots@, ks, ns, mesh@);
        }
        mesh
    }

    /// Adds the node of `lane` at the intersection `at`, in the vacant slot.
    pub fn add_node(&mut self, lane: LaneID, at: IntersectionID) -> (id: NavNodeID)
        ensures
            id.0 == old(self).vacant(),
            !old(self)@.dom().contains(id.0),
            final(self)@ == old(self)@.insert(id.0, NavNode { id, lane, at }),
    {
        let id = NavNodeID(node_vacant_key(&self.nodes));
        let _ = node_insert(&mut self.nodes, NavNode { id, lane, at });
        id
    }

    /// Takes a node out of the mesh and returns it, or returns `None` and
    /// leaves the mesh as it was where no node has that identifier.
    pub fn remove_node(&mut self, id: NavNodeID) -> (removed: Option<NavNode>)
        ensures
            removed == (if old(self)@.dom().contains(id.0) {
                Some(old(self)@[id.0])
            } else {
                None
            }),
            final(self)@ == old(self)@.remove(id.0),
    {
        match node_get(&self.nodes, id.0) {
            Some(_) => Some(node_remove(&mut self.nodes, id.0)),
            None => {
                assert(self@ =~= self@.remove(id.0));
                None
            },
        }
    }

    /// The slots that hold a node, in rising order.
    pub fn keys(&self) -> (keys: Vec<usize>)
        ensures
            forall|p: int, q: int| 0 <= p < q < keys.len() ==> keys[p] < keys[q],
            forall|k: usize| self@.dom().contains(k) <==> keys@.contains(k),
    {
        node_keys(&self.nodes)
    }

    /// The node with the given identifier, if there is one.
    pub fn get(&self, id: NavNodeID) -> (found: Option<NavNode>)
        ensures
            found == (if self@.dom().contains(id.0) {
                Some(self@[id.0])
            } else {
                None
            }),
    {
        match node_get(&self.nodes, id.0) {
            Some(node) => Some(*node),
            None => None,
        }
    }
}

} // verus!
