//! A personal quest log: quests are flat records optionally linked into
//! parent/child chains. The crate provides the quest store, the forest
//! reconstructor that nests chains, the cascade operator that applies a
//! delete or status overwrite to a whole chain, and the tree renderer
//! that draws the forest as an indented, connector-decorated table.

pub mod cascade;
pub mod color;
pub mod error;
pub mod forest;
pub mod item;
pub mod quest;
pub mod render;
pub mod session;
pub mod store;
pub mod task;
