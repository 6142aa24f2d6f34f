//! An embeddable, id-addressed arena that backs an editable hierarchical
//! document.  Nodes carry application payloads, are linked by explicit
//! parent/child relations expressed as identity values, and are browsed
//! through a stateful cursor that can be pinned against further movement.
//! The arena serializes to an ordered node list and is rebuilt from it,
//! re-deriving all keyed lookup structures on load.

pub mod arena;
pub mod cube;
pub mod entity;
pub mod error;
pub mod graph;
pub mod model;
pub mod node;
pub mod ser_de;
pub mod time;
