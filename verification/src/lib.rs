//! A navigable road network for agents of a traffic simulation.
//!
//! The network is a graph of intersections joined by roads. Each road is split
//! into lanes, each lane gets a navigation node at either end, and at every
//! intersection turns connect the lanes that arrive to the lanes that leave,
//! as far as the intersection's traffic control permits.
//!
//! Every entity lives in a slot arena and is named by the slot it occupies.
//! The executable code is verified against a mathematical model of the map:
//! see [`model::MapModel`] and [`model::MapModel::wf`].

pub mod arena;
pub mod engine_interaction;
pub mod error;
pub mod ids;
pub mod intersection;
pub mod lane;
pub mod map;
pub mod model;
pub mod navmesh;
pub mod road;
pub mod snapshot;
pub mod traffic_control;
pub mod traversable;
pub mod turn;
pub mod validate;
