//! In-memory scene-hierarchy core for an entity editor.
//!
//! The crate maintains a parent/child entity graph ([`graph::EntityGraph`]),
//! a multi-entity selection ([`selection::SelectionSet`]), deep cloning of a
//! subtree with identity remapping ([`clone_engine`]), and an ordered change
//! log ([`change::ChangeRecord`]) that drives an external undo/redo stack.
//! [`controller::HierarchyController`] ties the pieces together.

use vstd::prelude::*;

pub mod change;
pub mod clone_engine;
pub mod controller;
pub mod graph;
pub mod selection;

verus! {

/// An opaque, stable handle for one node of the hierarchy.
///
/// Identifiers are allocated by a monotone counter and never reused, so a
/// handle stays distinguishable from every later one even after its entity
/// has been destroyed.
#[derive(Clone, Copy, PartialEq, Eq, Structural, Hash, Debug)]
pub struct Entity {
    pub id: u64,
}

/// Why a structural mutation was rejected. A rejected mutation has no
/// effect on the graph.
#[derive(Clone, Copy, PartialEq, Eq, Structural, Debug)]
pub enum HierarchyError {
    /// A referenced entity does not exist in the graph.
    InvalidParent,
    /// The requested attachment would make an entity its own ancestor.
    CycleDetected,
}

} // verus!
