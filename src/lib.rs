//! A parent/child hierarchy over host entities that survives the entities'
//! storage slots being destroyed and recreated, by referring to entities
//! through small recyclable identities instead of slot handles.
pub mod components;
pub mod id_manager;
pub mod world;
pub mod child_builder;
pub mod despawn;
pub mod commands;
pub mod laws;

pub use components::{Entity, RollSafeChildren, RollSafeId, RollSafeParent};
pub use id_manager::IdManager;
pub use world::{SlotView, World, WorldView};
pub use commands::{
    ClearChildren, Commands, HierarchyCommand, InsertChildren, PushChild, PushChildren,
    RemoveChildren, RemoveParent, ReplaceChildren, RollSafeDespawnRecursive,
};
